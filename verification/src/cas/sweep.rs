//! The sweep for blobs that nothing names, from beginning to end.

use vstd::prelude::*;
use crate::cas::execution::tally;
use crate::cas::flows::{lemma_alike, same_object};
use crate::cas::gc::{file_name, is_orphan, orphan_steps, Gathering, GatheringParts};
use crate::cas::model::{complete, lemma_sweep_keeps, run, sound, Disk};
use crate::cas::parts::table_blobs;
use crate::cas::records::PartRefFileView;
use crate::cas::upload_flows::{lemma_in_sum, ref_at};
use crate::manifest::ManifestView;
use crate::outside::is_canonical_uuid;
use crate::plan::call::QuestionView;
use crate::plan::place::Place;
use crate::plan::runner::{no_tallies, StepView, Tallies};
use crate::text::texts;

verus! {

/// A live version or a part of an upload has this blob.
pub open spec fn is_named(
    d: Disk,
    parse: spec_fn(Seq<u8>) -> Option<PartRefFileView>,
    b: Seq<char>,
) -> bool {
    ||| exists|key: Seq<char>| d.live.contains_key(key) && #[trigger] d.live[key].blobs().contains(b)
    ||| exists|id: Seq<char>, name: Seq<char>|
        (#[trigger] ref_at(d, id, name, parse)) matches Some(p) && p.blob_id == b
}

/// The blobs that a sweep gathers from manifests and from the tables of uploads, in the order in
/// which it reads them.
pub open spec fn gathered(
    manifests: Seq<ManifestView>,
    tables: Seq<Seq<PartRefFileView>>,
) -> Seq<Seq<char>>
    decreases manifests.len() + tables.len(),
{
    if tables.len() > 0 {
        gathered(manifests, tables.drop_last()) + table_blobs(tables.last())
    } else if manifests.len() > 0 {
        gathered(manifests.drop_last(), tables) + manifests.last().blobs()
    } else {
        Seq::empty()
    }
}

/// What a sweep has gathered while it reads the manifests.
proof fn lemma_gathering(
    rels: Seq<Seq<char>>,
    stages: Seq<Gathering>,
    manifests: Seq<ManifestView>,
    k: int,
)
    requires
        0 <= k <= manifests.len(),
        stages.len() == manifests.len() + 1,
        stages[0].begins(rels),
        stages[0].files@.len() == manifests.len(),
        forall|i: int|
            0 <= i < manifests.len() ==> (#[trigger] stages[i]).grows_to(
                manifests[i],
                stages[i + 1],
            ),
    ensures
        stages[k].next == k,
        stages[k].files == stages[0].files,
        texts(stages[k].referenced@) == gathered(manifests.take(k), Seq::empty()),
    decreases k,
{
    if k == 0 {
        assert(texts(stages[0].referenced@) =~= gathered(manifests.take(0), Seq::empty()));
    } else {
        let i = k - 1;
        lemma_gathering(rels, stages, manifests, i);
        assert(stages[i].grows_to(manifests[i], stages[i + 1]));
        assert(i < stages[0].files.len());
        assert(manifests.take(k).drop_last() =~= manifests.take(i));
        assert(manifests.take(k).last() == manifests[i]);
    }
}

/// What a sweep has gathered while it reads the part records.
proof fn lemma_gathering_parts(
    manifests: Seq<ManifestView>,
    first: Gathering,
    stages: Seq<GatheringParts>,
    tables: Seq<Seq<PartRefFileView>>,
    k: int,
)
    requires
        0 <= k <= tables.len(),
        stages.len() == tables.len() + 1,
        texts(first.referenced@) == gathered(manifests, Seq::empty()),
        stages[0].begins(first),
        stages[0].uploads@.len() == tables.len(),
        forall|j: int|
            0 <= j < tables.len() ==> (#[trigger] stages[j]).grows_to(tables[j], stages[j + 1]),
    ensures
        stages[k].next == k,
        stages[k].uploads == stages[0].uploads,
        texts(stages[k].referenced@) == gathered(manifests, tables.take(k)),
    decreases k,
{
    if k == 0 {
        assert(tables.take(0) =~= Seq::empty());
    } else {
        let j = k - 1;
        lemma_gathering_parts(manifests, first, stages, tables, j);
        assert(stages[j].grows_to(tables[j], stages[j + 1]));
        assert(j < stages[0].uploads.len());
        assert(tables.take(k).drop_last() =~= tables.take(j));
        assert(tables.take(k).last() == tables[j]);
    }
}

/// A sweep asks for each manifest of the tree, then for the uploads, then for the part records of
/// each of them, and last for the blobs. What it then takes for named is what it has read: the blobs
/// of these manifests and of these tables.
pub proof fn sweep_gathers_what_it_reads(
    rels: Seq<Seq<char>>,
    reading: Seq<Gathering>,
    manifests: Seq<ManifestView>,
    parts: Seq<GatheringParts>,
    tables: Seq<Seq<PartRefFileView>>,
)
    requires
        reading.len() == manifests.len() + 1,
        reading[0].begins(rels),
        reading[0].files@.len() == manifests.len(),
        forall|i: int|
            0 <= i < manifests.len() ==> (#[trigger] reading[i]).grows_to(
                manifests[i],
                reading[i + 1],
            ),
        parts.len() == tables.len() + 1,
        parts[0].begins(reading.last()),
        parts[0].uploads@.len() == tables.len(),
        forall|j: int|
            0 <= j < tables.len() ==> (#[trigger] parts[j]).grows_to(tables[j], parts[j + 1]),
    ensures
        texts(parts.last().referenced@) == gathered(manifests, tables),
        forall|i: int|
            0 <= i < manifests.len() ==> (#[trigger] reading[i]).next_steps() == seq![
                StepView::Ask {
                    question: QuestionView::ReadManifest {
                        at: Place::CurrentFile { rel: reading[0].files@[i]@ },
                    },
                },
            ],
        reading.last().next_steps() == seq![
            StepView::Ask { question: QuestionView::List { at: Place::Arriving } },
        ],
        forall|j: int|
            0 <= j < tables.len() ==> (#[trigger] parts[j]).next_steps() == seq![
                StepView::Ask {
                    question: QuestionView::ReadPartRefs { id: parts[0].uploads@[j]@ },
                },
            ],
        parts.last().next_steps() == seq![
            StepView::Ask {
                question: QuestionView::Walk { at: Place::Blobs, instead: Place::Blobs },
            },
        ],
{
    let n = manifests.len() as int;
    let m = tables.len() as int;
    assert forall|i: int| 0 <= i < n implies (#[trigger] reading[i]).next_steps() == seq![
        StepView::Ask {
            question: QuestionView::ReadManifest {
                at: Place::CurrentFile { rel: reading[0].files@[i]@ },
            },
        },
    ] by {
        lemma_gathering(rels, reading, manifests, i);
    }
    lemma_gathering(rels, reading, manifests, n);
    assert(manifests.take(n) =~= manifests);
    assert forall|j: int| 0 <= j < m implies (#[trigger] parts[j]).next_steps() == seq![
        StepView::Ask { question: QuestionView::ReadPartRefs { id: parts[0].uploads@[j]@ } },
    ] by {
        lemma_gathering_parts(manifests, reading.last(), parts, tables, j);
    }
    lemma_gathering_parts(manifests, reading.last(), parts, tables, m);
    assert(tables.take(m) =~= tables);
}

/// The manifests are the live versions, and the tables are those of the uploads.
pub open spec fn sees_all(
    d: Disk,
    parse: spec_fn(Seq<u8>) -> Option<PartRefFileView>,
    manifests: Seq<ManifestView>,
    tables: Seq<Seq<PartRefFileView>>,
) -> bool {
    &&& forall|key: Seq<char>| #[trigger]
        d.live.contains_key(key) ==> manifests.contains(d.live[key])
    &&& forall|i: int|
        0 <= i < manifests.len() ==> exists|key: Seq<char>|
            d.live.contains_key(key) && d.live[key] == #[trigger] manifests[i]
    &&& forall|id: Seq<char>, name: Seq<char>|
        (#[trigger] ref_at(d, id, name, parse)) matches Some(p) ==> exists|j: int|
            0 <= j < tables.len() && (#[trigger] tables[j]).contains(p)
    &&& forall|j: int, i: int|
        0 <= j < tables.len() && 0 <= i < tables[j].len() ==> exists|id: Seq<char>, name: Seq<char>|
            ref_at(d, id, name, parse) == Some(#[trigger] tables[j][i])
}

/// What is gathered is the blobs of the manifests and of the tables.
proof fn lemma_gathered(
    manifests: Seq<ManifestView>,
    tables: Seq<Seq<PartRefFileView>>,
    b: Seq<char>,
)
    ensures
        gathered(manifests, tables).contains(b) <==> (exists|i: int|
            0 <= i < manifests.len() && (#[trigger] manifests[i]).blobs().contains(b)) || (exists|
            j: int,
        |
            0 <= j < tables.len() && table_blobs(#[trigger] tables[j]).contains(b)),
    decreases manifests.len() + tables.len(),
{
    let all = gathered(manifests, tables);
    if tables.len() > 0 {
        let front = tables.drop_last();
        lemma_gathered(manifests, front, b);
        lemma_in_sum(gathered(manifests, front), table_blobs(tables.last()), b);
        let n = tables.len() - 1;
        assert(tables[n] == tables.last());
        assert(forall|j: int| 0 <= j < front.len() ==> #[trigger] front[j] == tables[j]);
        if exists|j: int| 0 <= j < tables.len() && table_blobs(#[trigger] tables[j]).contains(b) {
            let j = choose|j: int|
                0 <= j < tables.len() && table_blobs(#[trigger] tables[j]).contains(b);
            if j < n {
                assert(table_blobs(front[j]).contains(b));
            }
        }
        if exists|j: int| 0 <= j < front.len() && table_blobs(#[trigger] front[j]).contains(b) {
            let j = choose|j: int| 0 <= j < front.len() && table_blobs(#[trigger] front[j]).contains(b);
            assert(table_blobs(tables[j]).contains(b));
        }
    } else if manifests.len() > 0 {
        let front = manifests.drop_last();
        lemma_gathered(front, tables, b);
        lemma_in_sum(gathered(front, tables), manifests.last().blobs(), b);
        let n = manifests.len() - 1;
        assert(manifests[n] == manifests.last());
        if exists|i: int| 0 <= i < manifests.len() && (#[trigger] manifests[i]).blobs().contains(b) {
            let i = choose|i: int|
                0 <= i < manifests.len() && (#[trigger] manifests[i]).blobs().contains(b);
            if i < n {
                assert(front[i].blobs().contains(b));
            }
        }
        if exists|i: int| 0 <= i < front.len() && (#[trigger] front[i]).blobs().contains(b) {
            let i = choose|i: int| 0 <= i < front.len() && (#[trigger] front[i]).blobs().contains(b);
            assert(manifests[i].blobs().contains(b));
        }
    }
}

/// What a sweep gathers is what is named.
proof fn lemma_gathers_what_is_named(
    d: Disk,
    parse: spec_fn(Seq<u8>) -> Option<PartRefFileView>,
    manifests: Seq<ManifestView>,
    tables: Seq<Seq<PartRefFileView>>,
    b: Seq<char>,
)
    requires
        sees_all(d, parse, manifests, tables),
    ensures
        gathered(manifests, tables).contains(b) <==> is_named(d, parse, b),
{
    lemma_gathered(manifests, tables, b);
    if exists|i: int| 0 <= i < manifests.len() && (#[trigger] manifests[i]).blobs().contains(b) {
        let i = choose|i: int|
            0 <= i < manifests.len() && (#[trigger] manifests[i]).blobs().contains(b);
        let key = choose|key: Seq<char>| d.live.contains_key(key) && d.live[key] == manifests[i];
        assert(d.live[key].blobs().contains(b));
    }
    if exists|j: int| 0 <= j < tables.len() && table_blobs(#[trigger] tables[j]).contains(b) {
        let j = choose|j: int|
            0 <= j < tables.len() && table_blobs(#[trigger] tables[j]).contains(b);
        let i = choose|i: int| 0 <= i < table_blobs(tables[j]).len() && table_blobs(tables[j])[i] == b;
        let p = tables[j][i];
        let (id, name) = choose|id: Seq<char>, name: Seq<char>|
            ref_at(d, id, name, parse) == Some(tables[j][i]);
        assert(ref_at(d, id, name, parse) == Some(p));
        assert(p.blob_id == b);
    }
    if exists|key: Seq<char>| d.live.contains_key(key) && #[trigger] d.live[key].blobs().contains(b) {
        let key = choose|key: Seq<char>|
            d.live.contains_key(key) && #[trigger] d.live[key].blobs().contains(b);
        assert(manifests.contains(d.live[key]));
        let i = choose|i: int| 0 <= i < manifests.len() && manifests[i] == d.live[key];
        assert(manifests[i].blobs().contains(b));
    }
    if exists|id: Seq<char>, name: Seq<char>|
        (#[trigger] ref_at(d, id, name, parse)) matches Some(p) && p.blob_id == b {
        let (id, name) = choose|id: Seq<char>, name: Seq<char>|
            (#[trigger] ref_at(d, id, name, parse)) matches Some(p) && p.blob_id == b;
        let p = ref_at(d, id, name, parse)->0;
        let j = choose|j: int| 0 <= j < tables.len() && (#[trigger] tables[j]).contains(p);
        let i = choose|i: int| 0 <= i < tables[j].len() && tables[j][i] == p;
        assert(table_blobs(tables[j])[i] == b);
        assert(table_blobs(tables[j]).contains(b));
    }
}

/// The sweep for blobs that nothing names, up to any point, removes no blob that is named: every
/// blob of a live version stays, and so does every blob of a part of an upload. Every object is
/// answered as before.
pub proof fn sweep_keeps_named_blobs(
    path: Seq<char>,
    d: Disk,
    parse: spec_fn(Seq<u8>) -> Option<PartRefFileView>,
    manifests: Seq<ManifestView>,
    tables: Seq<Seq<PartRefFileView>>,
    rels: Seq<Seq<char>>,
    done: Seq<bool>,
    k: int,
)
    requires
        sound(d),
        sees_all(d, parse, manifests, tables),
        0 <= k <= orphan_steps(rels, gathered(manifests, tables)).len(),
    ensures
        ({
            let x = run(d, orphan_steps(rels, gathered(manifests, tables)).take(k), done);
            &&& sound(x)
            &&& x.live == d.live
            &&& x.refs == d.refs
            &&& forall|b: Seq<char>|
                d.blobs.contains_key(b) && is_named(d, parse, b) ==> #[trigger]
                    x.blobs.contains_key(b) && x.blobs[b] == d.blobs[b]
            &&& forall|key: Seq<char>| #[trigger] same_object(path, d, x, key)
        }),
{
    let referenced = gathered(manifests, tables);
    let x = run(d, orphan_steps(rels, referenced).take(k), done);
    assert forall|key: Seq<char>, b: Seq<char>|
        d.live.contains_key(key) && #[trigger] d.live[key].blobs().contains(b) implies referenced.contains(
    b) by {
        lemma_gathers_what_is_named(d, parse, manifests, tables, b);
    }
    lemma_sweep_keeps(d, rels, referenced, done, k);
    assert forall|b: Seq<char>| d.blobs.contains_key(b) && is_named(d, parse, b) implies
        #[trigger] x.blobs.contains_key(b) && x.blobs[b] == d.blobs[b] by {
        lemma_gathers_what_is_named(d, parse, manifests, tables, b);
    }
    assert forall|key: Seq<char>| #[trigger] same_object(path, d, x, key) by {
        lemma_unswept(path, d, x, key, referenced);
    }
}

/// An object whose blobs are all on the list is answered as before.
proof fn lemma_unswept(
    path: Seq<char>,
    d: Disk,
    x: Disk,
    key: Seq<char>,
    referenced: Seq<Seq<char>>,
)
    requires
        complete(d),
        x.live == d.live,
        forall|b: Seq<char>|
            d.blobs.contains_key(b) && referenced.contains(b) ==> #[trigger] x.blobs.contains_key(b)
                && x.blobs[b] == d.blobs[b],
        forall|b: Seq<char>|
            d.live.contains_key(key) && #[trigger] d.live[key].blobs().contains(b)
                ==> referenced.contains(b),
    ensures
        same_object(path, d, x, key),
{
    assert forall|b: Seq<char>|
        d.live.contains_key(key) && #[trigger] d.live[key].blobs().contains(b) implies x.blobs.contains_key(
    b) && x.blobs[b] == d.blobs[b] by {
        assert(d.blobs.contains_key(b));
        assert(x.blobs.contains_key(b));
    }
    lemma_alike(path, d, x, key);
}

/// The files are those of the blobs, each of them once.
pub open spec fn lists_blobs(d: Disk, rels: Seq<Seq<char>>) -> bool {
    &&& rels.len() <= usize::MAX
    &&& forall|i: int, j: int|
        0 <= i < j < rels.len() ==> file_name(#[trigger] rels[i]) != file_name(#[trigger] rels[j])
    &&& forall|b: Seq<char>| #[trigger]
        d.blobs.contains_key(b) && is_canonical_uuid(b) ==> exists|i: int|
            0 <= i < rels.len() && file_name(#[trigger] rels[i]) == b
    &&& forall|i: int|
        0 <= i < rels.len() && is_canonical_uuid(file_name(#[trigger] rels[i]))
            ==> d.blobs.contains_key(file_name(rels[i]))
}

/// The files that are swept away.
pub open spec fn orphans(rels: Seq<Seq<char>>, referenced: Seq<Seq<char>>) -> Seq<Seq<char>>
    decreases rels.len(),
{
    if rels.len() == 0 {
        Seq::empty()
    } else {
        let front = orphans(rels.drop_last(), referenced);
        if is_orphan(rels.last(), referenced) {
            front.push(file_name(rels.last()))
        } else {
            front
        }
    }
}

/// A sweep that succeeds throughout removes as many blobs as it counts.
proof fn lemma_counted(d: Disk, rels: Seq<Seq<char>>, referenced: Seq<Seq<char>>, done: Seq<bool>)
    requires
        rels.len() <= usize::MAX,
        orphan_steps(rels, referenced).len() <= done.len(),
        forall|i: int| 0 <= i < orphan_steps(rels, referenced).len() ==> done[i],
        forall|i: int, j: int|
            0 <= i < j < rels.len() ==> file_name(#[trigger] rels[i]) != file_name(
                #[trigger] rels[j],
            ),
    ensures
        ({
            let steps = orphan_steps(rels, referenced);
            let gone = orphans(rels, referenced);
            let x = run(d, steps, done);
            &&& gone.len() == steps.len() <= rels.len()
            &&& gone.no_duplicates()
            &&& forall|b: Seq<char>| #[trigger] gone.contains(b) ==> is_canonical_uuid(b)
                && !referenced.contains(b) && exists|i: int|
                0 <= i < rels.len() && file_name(#[trigger] rels[i]) == b
            &&& forall|b: Seq<char>| #[trigger]
                x.blobs.contains_key(b) <==> d.blobs.contains_key(b) && !gone.contains(b)
            &&& forall|b: Seq<char>| #[trigger]
                x.blobs.contains_key(b) ==> x.blobs[b] == d.blobs[b]
            &&& tally(no_tallies(), steps, done) == (Tallies {
                blobs: steps.len() as usize,
                ..no_tallies()
            })
        }),
    decreases rels.len(),
{
    let steps = orphan_steps(rels, referenced);
    let gone = orphans(rels, referenced);
    let x = run(d, steps, done);
    if rels.len() > 0 {
        let front = rels.drop_last();
        let last = rels.last();
        let early = orphan_steps(front, referenced);
        let sooner = orphans(front, referenced);
        lemma_counted(d, front, referenced, done);
        let y = run(d, early, done);
        assert(forall|i: int| 0 <= i < front.len() ==> #[trigger] front[i] == rels[i]);
        assert(rels[rels.len() - 1] == last);
        if is_orphan(last, referenced) {
            let b = file_name(last);
            assert(steps.drop_last() =~= early);
            assert(x == crate::cas::model::step_effect(y, steps.last()));
            assert(!sooner.contains(b)) by {
                if sooner.contains(b) {
                    let i = choose|i: int| 0 <= i < front.len() && file_name(#[trigger] front[i]) == b;
                    assert(file_name(rels[i]) == file_name(rels[rels.len() - 1]));
                }
            }
            assert forall|c: Seq<char>| #[trigger] gone.contains(c) <==> sooner.contains(c) || c
                == b by {
                if sooner.contains(c) {
                    let i = choose|i: int| 0 <= i < sooner.len() && sooner[i] == c;
                    assert(gone[i] == c);
                }
                if c == b {
                    assert(gone[sooner.len() as int] == c);
                }
            }
            assert(gone.no_duplicates()) by {
                assert forall|i: int, j: int| 0 <= i < gone.len() && 0 <= j < gone.len() && i
                    != j implies gone[i] != gone[j] by {
                    if i < sooner.len() && j < sooner.len() {
                        assert(sooner[i] != sooner[j]);
                    } else if i < sooner.len() {
                        assert(sooner.contains(sooner[i]));
                    } else {
                        assert(sooner.contains(sooner[j]));
                    }
                }
            }
        }
        assert forall|b: Seq<char>| #[trigger] gone.contains(b) implies is_canonical_uuid(b)
            && !referenced.contains(b) && exists|i: int|
            0 <= i < rels.len() && file_name(#[trigger] rels[i]) == b by {
            if sooner.contains(b) {
                let i = choose|i: int| 0 <= i < front.len() && file_name(#[trigger] front[i]) == b;
                assert(file_name(rels[i]) == b);
            } else {
                assert(file_name(rels[rels.len() - 1]) == b);
            }
        }
        assert forall|b: Seq<char>| #[trigger] x.blobs.contains_key(b) <==> d.blobs.contains_key(b)
            && !gone.contains(b) by {
            assert(y.blobs.contains_key(b) <==> d.blobs.contains_key(b) && !sooner.contains(b));
        }
        assert forall|b: Seq<char>| #[trigger] x.blobs.contains_key(b) implies x.blobs[b]
            == d.blobs[b] by {
            assert(y.blobs.contains_key(b));
        }
    }
}

/// After a sweep that succeeds throughout, the blobs that are left are those that are named, and
/// what is counted is how many were removed. Nothing else changes: every object is answered as
/// before, and so is every request for the parts of an upload. A second sweep finds nothing to
/// remove and counts nothing.
pub proof fn sweep_leaves_no_orphan(
    path: Seq<char>,
    d: Disk,
    parse: spec_fn(Seq<u8>) -> Option<PartRefFileView>,
    manifests: Seq<ManifestView>,
    tables: Seq<Seq<PartRefFileView>>,
    rels: Seq<Seq<char>>,
    done: Seq<bool>,
    again_manifests: Seq<ManifestView>,
    again_tables: Seq<Seq<PartRefFileView>>,
    again_rels: Seq<Seq<char>>,
)
    requires
        sound(d),
        sees_all(d, parse, manifests, tables),
        lists_blobs(d, rels),
        done.len() == orphan_steps(rels, gathered(manifests, tables)).len(),
        forall|i: int| 0 <= i < done.len() ==> done[i],
        ({
            let x = run(d, orphan_steps(rels, gathered(manifests, tables)), done);
            sees_all(x, parse, again_manifests, again_tables) && lists_blobs(x, again_rels)
        }),
    ensures
        ({
            let steps = orphan_steps(rels, gathered(manifests, tables));
            let x = run(d, steps, done);
            let gone = Set::new(|b: Seq<char>| d.blobs.contains_key(b) && !x.blobs.contains_key(b));
            let again = orphan_steps(again_rels, gathered(again_manifests, again_tables));
            &&& forall|b: Seq<char>| #[trigger]
                x.blobs.contains_key(b) <==> d.blobs.contains_key(b) && (is_named(d, parse, b)
                    || !is_canonical_uuid(b))
            &&& forall|b: Seq<char>| #[trigger]
                x.blobs.contains_key(b) ==> x.blobs[b] == d.blobs[b]
            &&& x.live == d.live
            &&& x.refs == d.refs
            &&& forall|key: Seq<char>| #[trigger] same_object(path, d, x, key)
            &&& gone.len() == steps.len()
            &&& tally(no_tallies(), steps, done) == (Tallies {
                blobs: gone.len() as usize,
                ..no_tallies()
            })
            &&& again == Seq::<StepView>::empty()
            &&& tally(no_tallies(), again, Seq::empty()) == no_tallies()
        }),
{
    let referenced = gathered(manifests, tables);
    let steps = orphan_steps(rels, referenced);
    let x = run(d, steps, done);
    sweep_keeps_named_blobs(path, d, parse, manifests, tables, rels, done, steps.len() as int);
    assert(steps.take(steps.len() as int) =~= steps);
    lemma_counted(d, rels, referenced, done);
    let files = orphans(rels, referenced);
    let gone = Set::new(|b: Seq<char>| d.blobs.contains_key(b) && !x.blobs.contains_key(b));
    assert forall|b: Seq<char>| #[trigger] x.blobs.contains_key(b) <==> d.blobs.contains_key(b) && (
    is_named(d, parse, b) || !is_canonical_uuid(b)) by {
        lemma_gathers_what_is_named(d, parse, manifests, tables, b);
        if d.blobs.contains_key(b) && is_canonical_uuid(b) && !is_named(d, parse, b) {
            let i = choose|i: int| 0 <= i < rels.len() && file_name(#[trigger] rels[i]) == b;
            lemma_orphan_is_gone(rels, referenced, i);
        }
    }
    assert(gone =~= files.to_set()) by {
        assert forall|b: Seq<char>| files.contains(b) implies d.blobs.contains_key(b) by {
            let i = choose|i: int| 0 <= i < rels.len() && file_name(#[trigger] rels[i]) == b;
        }
    }
    files.unique_seq_to_set();
    let more = gathered(again_manifests, again_tables);
    assert forall|i: int| 0 <= i < again_rels.len() implies !is_orphan(
        #[trigger] again_rels[i],
        more,
    ) by {
        let b = file_name(again_rels[i]);
        if is_canonical_uuid(b) {
            assert(x.blobs.contains_key(b));
            lemma_named_alike(d, x, parse, b);
            lemma_gathers_what_is_named(x, parse, again_manifests, again_tables, b);
        }
    }
    lemma_no_orphans(again_rels, more);
}

/// An orphan is among the files that are swept away.
proof fn lemma_orphan_is_gone(rels: Seq<Seq<char>>, referenced: Seq<Seq<char>>, i: int)
    requires
        0 <= i < rels.len(),
        is_orphan(rels[i], referenced),
    ensures
        orphans(rels, referenced).contains(file_name(rels[i])),
    decreases rels.len(),
{
    let front = rels.drop_last();
    let sooner = orphans(front, referenced);
    let gone = orphans(rels, referenced);
    let b = file_name(rels[i]);
    if i < front.len() {
        lemma_orphan_is_gone(front, referenced, i);
        let j = choose|j: int| 0 <= j < sooner.len() && sooner[j] == b;
        assert(gone[j] == b);
    } else {
        assert(gone[sooner.len() as int] == b);
    }
}

/// What is named rests on the live versions and the part records alone.
proof fn lemma_named_alike(
    d: Disk,
    x: Disk,
    parse: spec_fn(Seq<u8>) -> Option<PartRefFileView>,
    b: Seq<char>,
)
    requires
        x.live == d.live,
        x.refs == d.refs,
        is_named(d, parse, b),
    ensures
        is_named(x, parse, b),
{
    if exists|key: Seq<char>| d.live.contains_key(key) && #[trigger] d.live[key].blobs().contains(b) {
        let key = choose|key: Seq<char>|
            d.live.contains_key(key) && #[trigger] d.live[key].blobs().contains(b);
        assert(x.live[key].blobs().contains(b));
    } else {
        let (id, name) = choose|id: Seq<char>, name: Seq<char>|
            (#[trigger] ref_at(d, id, name, parse)) matches Some(p) && p.blob_id == b;
        assert(ref_at(x, id, name, parse) == ref_at(d, id, name, parse));
    }
}

proof fn lemma_no_orphans(rels: Seq<Seq<char>>, referenced: Seq<Seq<char>>)
    requires
        forall|i: int| 0 <= i < rels.len() ==> !is_orphan(#[trigger] rels[i], referenced),
    ensures
        orphan_steps(rels, referenced) == Seq::<StepView>::empty(),
    decreases rels.len(),
{
    if rels.len() > 0 {
        let front = rels.drop_last();
        assert forall|i: int| 0 <= i < front.len() implies !is_orphan(
            #[trigger] front[i],
            referenced,
        ) by {
            assert(front[i] == rels[i]);
        }
        lemma_no_orphans(front, referenced);
        assert(rels[rels.len() - 1] == rels.last());
    }
}

} // verus!
