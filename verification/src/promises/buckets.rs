//! Buckets: creating, finding, removing and listing them.

use vstd::prelude::*;
use crate::cas::buckets::{
    bucket_created, bucket_list, bucket_scanned, bucket_walked, buckets_listed, has_in_flight_upload,
    holds_manifest, in_flight, info_names,
};
use crate::cas::recovery::{first_error, is_bucket_entry};
use crate::cas::store::{bucket_lock_shard, CasStore, Env};
use crate::filesystem::store::{bucket_listed, kept_because, Filesystem};
use crate::manifest::decoded_key;
use crate::plan::call::{
    bucket_infos, CallView, Entry, EntryKind, OutcomeView, QuestionView, Report, UploadDir,
};
use crate::plan::place::Place;
use crate::plan::runner::{may, must, Plan, StepView};
use crate::promises::listing::lemma_less_at;
use crate::promises::names::{
    is_proper_bucket, is_proper_key, is_segment, lemma_not_a_manifest, lemma_proper_bucket,
    lemma_read_back,
};
use crate::promises::uploads::less;
use crate::sorting::lemma_in_text_order;
use crate::text::{text_before, texts};
use crate::types::{BucketInfo, BucketInfoView, IoError, IoErrorKind, StorageError};
use vstd::utf8::encode_utf8;

verus! {

/// A bucket is created under a proper name only, and while no one else works on it.
pub proof fn bucket_is_created_under_a_proper_name(
    store: &CasStore,
    plain: &Filesystem,
    name: &str,
    shard: usize,
    r: Plan,
    p: Plan,
)
    requires
        call_ensures(CasStore::create_bucket, (store, name), r),
        call_ensures(Filesystem::create_bucket, (plain, name), p),
        call_ensures(bucket_lock_shard, (name,), shard),
    ensures
        !is_proper_bucket(name@) ==> r@ == seq![
            StepView::Fail { error: StorageError::InvalidBucket },
        ] && p@ == seq![StepView::Fail { error: StorageError::InvalidBucket }],
        is_proper_bucket(name@) ==> r@ == seq![
            StepView::Do {
                call: CallView::LockBucket { shard, exclusive: true },
                rule: must(Report::Io),
            },
            StepView::Ask { question: QuestionView::TryCreateDir { at: Place::Bucket } },
        ] && p@ == seq![
            StepView::Ask { question: QuestionView::TryCreateDir { at: Place::Bucket } },
        ],
{
    lemma_proper_bucket(name@);
}

pub open spec fn makes_dir(at: crate::plan::place::PlaceView) -> StepView {
    StepView::Do { call: CallView::CreateDirAll { at }, rule: must(Report::Io) }
}

/// A bucket that was created gets its directories, and the request succeeds. One that was there
/// before is reported, and any other failure as what it is.
pub proof fn existing_bucket_is_reported(
    env: &Env,
    result: Result<(), IoError>,
    r: Result<Plan, StorageError>,
    p: Result<Plan, StorageError>,
)
    requires
        call_ensures(bucket_created, (env, result), r),
        call_ensures(crate::filesystem::store::bucket_created, (result,), p),
    ensures
        result is Ok ==> (r matches Ok(plan) && plan@.last() == (StepView::Finish {
            outcome: OutcomeView::Nothing,
        }) && plan@.contains(makes_dir(Place::Current)) && plan@.contains(
            makes_dir(Place::Arriving),
        ) && plan@.contains(makes_dir(Place::Blobs)) && plan@.contains(makes_dir(Place::Deleted)))
            && (p matches Ok(plan) && plan@ == seq![
            StepView::Finish { outcome: OutcomeView::Nothing },
        ]),
        result is Err && result->Err_0.kind == IoErrorKind::AlreadyExists ==> (r matches Ok(plan)
            && plan@.last() == (StepView::Fail { error: StorageError::BucketExists })) && p == Err::<
            Plan,
            StorageError,
        >(StorageError::BucketExists),
        result is Err && result->Err_0.kind != IoErrorKind::AlreadyExists ==> r == Err::<
            Plan,
            StorageError,
        >(StorageError::Io(result->Err_0)) && p == Err::<Plan, StorageError>(
            StorageError::Io(result->Err_0),
        ),
{
    if result is Ok {
        let plan = r->Ok_0;
        let n = plan@.len() as int;
        let at = if env.fsync {
            1int
        } else {
            0int
        };
        assert(plan@[at] == makes_dir(Place::Current));
        assert(plan@[at + 1] == makes_dir(Place::Arriving));
        assert(plan@[at + 2] == makes_dir(Place::Blobs));
        assert(plan@[at + 3] == makes_dir(Place::Deleted));
    }
}

/// A bucket is there where its directory is. In the plain layout a link to a directory will do.
pub proof fn bucket_is_found_by_its_directory(
    store: &CasStore,
    plain: &Filesystem,
    name: &str,
    r: Plan,
    p: Plan,
)
    requires
        call_ensures(CasStore::head_bucket, (store, name), r),
        call_ensures(Filesystem::head_bucket, (plain, name), p),
    ensures
        !is_proper_bucket(name@) ==> r@ == seq![
            StepView::Fail { error: StorageError::PathTraversal },
        ] && p@ == seq![StepView::Fail { error: StorageError::PathTraversal }],
        is_proper_bucket(name@) ==> r@ == seq![
            StepView::Do {
                call: CallView::CheckDir { at: Place::Bucket },
                rule: must(Report::NoBucket),
            },
            StepView::Finish { outcome: OutcomeView::Nothing },
        ] && p@ == seq![
            StepView::Do {
                call: CallView::CheckLinkedDir { at: Place::Bucket },
                rule: must(Report::NoBucket),
            },
            StepView::Finish { outcome: OutcomeView::Nothing },
        ],
{
    lemma_proper_bucket(name@);
}

/// The removal of a bucket looks at what it holds before anything is removed.
pub proof fn bucket_is_looked_into_before_it_is_removed(
    store: &CasStore,
    plain: &Filesystem,
    name: &str,
    shard: usize,
    r: Plan,
    p: Plan,
)
    requires
        call_ensures(CasStore::delete_bucket, (store, name), r),
        call_ensures(Filesystem::delete_bucket, (plain, name), p),
        call_ensures(bucket_lock_shard, (name,), shard),
    ensures
        !is_proper_bucket(name@) ==> r@ == seq![
            StepView::Fail { error: StorageError::PathTraversal },
        ] && p@ == seq![StepView::Fail { error: StorageError::PathTraversal }],
        is_proper_bucket(name@) ==> r@ == seq![
            StepView::Do {
                call: CallView::LockBucket { shard, exclusive: true },
                rule: must(Report::Io),
            },
            StepView::Do {
                call: CallView::CheckDir { at: Place::Bucket },
                rule: must(Report::NoBucket),
            },
            StepView::Ask {
                question: QuestionView::Walk { at: Place::Current, instead: Place::Current },
            },
        ] && p@ == seq![
            StepView::Do {
                call: CallView::CheckLinkedDir { at: Place::Bucket },
                rule: must(Report::NoBucket),
            },
            StepView::Ask { question: QuestionView::List { at: Place::Bucket } },
        ],
{
    lemma_proper_bucket(name@);
}

/// A bucket with an object is kept. One without a file that is named like a manifest is looked into
/// further, for all its uploads.
pub proof fn bucket_with_an_object_is_kept(
    rels: Vec<String>,
    i: int,
    key: Seq<char>,
    r: Result<Plan, StorageError>,
)
    requires
        call_ensures(bucket_walked, (Ok::<Vec<String>, IoError>(rels),), r),
    ensures
        0 <= i < rels@.len() && is_proper_key(key) && rels@[i]@ == key + ".s3gw-live.meta"@
            ==> r == Err::<Plan, StorageError>(StorageError::BucketNotEmpty),
        (forall|k: int, a: int, b: int|
            0 <= k < rels@.len() && #[trigger] is_segment(rels@[k]@, '/', a, b)
                ==> !".s3gw-live.meta"@.is_suffix_of(rels@[k]@.subrange(a, b))) ==> (r matches Ok(plan)
            && plan@ == seq![
            StepView::Ask { question: QuestionView::ScanUploads { limit: usize::MAX } },
        ]),
{
    let all = texts(rels@);
    if 0 <= i < rels@.len() && is_proper_key(key) && rels@[i]@ == key + ".s3gw-live.meta"@ {
        lemma_read_back(key);
        assert(decoded_key(all[i]) is Some);
        assert(holds_manifest(all));
    }
    if forall|k: int, a: int, b: int|
        0 <= k < rels@.len() && #[trigger] is_segment(rels@[k]@, '/', a, b)
            ==> !".s3gw-live.meta"@.is_suffix_of(rels@[k]@.subrange(a, b)) {
        assert forall|k: int| 0 <= k < all.len() implies decoded_key(#[trigger] all[k]) is None by {
            assert(all[k] == rels@[k]@);
            lemma_not_a_manifest(all[k]);
        }
    }
}

/// A manifest tree that could not be walked keeps the bucket.
pub proof fn unreadable_bucket_is_kept(e: IoError, r: Result<Plan, StorageError>)
    requires
        call_ensures(bucket_walked, (Err::<Vec<String>, IoError>(e),), r),
    ensures
        r == Err::<Plan, StorageError>(StorageError::Io(e)),
{
}

/// An upload that is in progress: a directory with a record that can be read, which was not marked
/// as completed.
pub open spec fn is_in_flight(entry: Result<UploadDir, IoError>) -> bool {
    entry matches Ok(d) && d.is_dir && d.readable && !d.completed
}

proof fn lemma_in_flight(entries: Seq<Result<UploadDir, IoError>>)
    requires
        forall|i: int| 0 <= i < entries.len() ==> #[trigger] entries[i] is Ok,
    ensures
        in_flight(entries) is Ok,
        in_flight(entries)->Ok_0 <==> exists|i: int|
            0 <= i < entries.len() && is_in_flight(#[trigger] entries[i]),
    decreases entries.len(),
{
    if entries.len() > 0 {
        let rest = entries.skip(1);
        assert forall|i: int| 0 <= i < rest.len() implies #[trigger] rest[i] is Ok by {
            assert(entries[i + 1] is Ok);
        }
        assert(entries[0] is Ok);
        lemma_in_flight(rest);
        if is_in_flight(entries[0]) {
        } else {
            if exists|i: int| 0 <= i < entries.len() && is_in_flight(#[trigger] entries[i]) {
                let i = choose|i: int| 0 <= i < entries.len() && is_in_flight(#[trigger] entries[i]);
                assert(rest[i - 1] == entries[i]);
            }
            if exists|i: int| 0 <= i < rest.len() && is_in_flight(#[trigger] rest[i]) {
                let i = choose|i: int| 0 <= i < rest.len() && is_in_flight(#[trigger] rest[i]);
                assert(entries[i + 1] == rest[i]);
            }
        }
    }
}

/// A bucket with an upload in progress is kept. One without is removed with all that it holds.
pub proof fn bucket_with_an_upload_is_kept(
    env: &Env,
    entries: Vec<Result<UploadDir, IoError>>,
    r: Result<Plan, StorageError>,
    found: Result<bool, IoError>,
    scan: &Result<Vec<Result<UploadDir, IoError>>, IoError>,
)
    requires
        forall|i: int| 0 <= i < entries@.len() ==> #[trigger] entries@[i] is Ok,
        *scan == Ok::<Vec<Result<UploadDir, IoError>>, IoError>(entries),
        call_ensures(bucket_scanned, (env, *scan), r),
        call_ensures(has_in_flight_upload, (scan,), found),
    ensures
        found is Ok,
        found->Ok_0 <==> exists|i: int|
            0 <= i < entries@.len() && is_in_flight(#[trigger] entries@[i]),
        found->Ok_0 ==> r == Err::<Plan, StorageError>(StorageError::BucketNotEmpty),
        !found->Ok_0 ==> (r matches Ok(plan) && plan@[0] == (StepView::Do {
            call: CallView::RemoveDirAll { at: Place::Bucket },
            rule: must(Report::Io),
        }) && plan@.last() == (StepView::Finish { outcome: OutcomeView::Nothing }) && forall|k: int|
            0 < k < plan@.len() - 1 ==> #[trigger] plan@[k] == (StepView::Do {
                call: CallView::SyncDir { at: Place::DataRoot },
                rule: must(Report::Io),
            })),
{
    lemma_in_flight(entries@);
}

/// An upload area that is not there has no uploads. One that cannot be read keeps the bucket.
pub proof fn unreadable_upload_area_keeps_the_bucket(
    env: &Env,
    e: IoError,
    r: Result<Plan, StorageError>,
)
    requires
        call_ensures(
            bucket_scanned,
            (env, Err::<Vec<Result<UploadDir, IoError>>, IoError>(e)),
            r,
        ),
    ensures
        e.kind == IoErrorKind::NotFound ==> (r matches Ok(plan) && plan@[0] == (StepView::Do {
            call: CallView::RemoveDirAll { at: Place::Bucket },
            rule: must(Report::Io),
        })),
        e.kind != IoErrorKind::NotFound ==> r == Err::<Plan, StorageError>(StorageError::Io(e)),
{
}

/// An entry of the data root that is a bucket: a directory, and none that a dot hides.
pub open spec fn is_bucket(entry: Result<Entry, IoError>) -> bool {
    entry matches Ok(e) && e.kind == Some(EntryKind::Directory) && (e.name@.len() == 0 || e.name@[0]
        != '.')
}

pub proof fn lemma_is_bucket(e: Entry)
    ensures
        is_bucket_entry(e) <==> is_bucket(Ok::<Entry, IoError>(e)),
{
    reveal_strlit(".");
    assert("."@ =~= seq!['.']);
    if e.name@.len() > 0 {
        assert(e.name@.subrange(0, 1) =~= seq![e.name@[0]]);
        if "."@.is_prefix_of(e.name@) {
            assert(e.name@.subrange(0, 1)[0] == '.');
        }
    }
}

pub proof fn lemma_bucket_list(entries: Seq<Result<Entry, IoError>>)
    requires
        forall|i: int| 0 <= i < entries.len() ==> #[trigger] entries[i] is Ok,
    ensures
        first_error(entries) is None,
        bucket_list(entries).len() <= entries.len(),
        forall|i: int|
            0 <= i < entries.len() && is_bucket(#[trigger] entries[i]) ==> bucket_list(
                entries,
            ).contains(
                BucketInfoView {
                    name: entries[i]->Ok_0.name@,
                    creation_unix: entries[i]->Ok_0.mtime,
                },
            ),
        forall|b: BucketInfoView|
            #[trigger] bucket_list(entries).contains(b) ==> is_bucket_of(entries, b),
    decreases entries.len(),
{
    if entries.len() > 0 {
        let rest = entries.skip(1);
        assert forall|i: int| 0 <= i < rest.len() implies #[trigger] rest[i] is Ok by {
            assert(entries[i + 1] is Ok);
        }
        assert(entries[0] is Ok);
        lemma_bucket_list(rest);
        let e = entries[0]->Ok_0;
        lemma_is_bucket(e);
        let later = bucket_list(rest);
        let all = bucket_list(entries);
        let n = if is_bucket(entries[0]) {
            1int
        } else {
            0int
        };
        assert(all.len() == n + later.len());
        assert forall|k: int| 0 <= k < later.len() implies all[n + k] == later[k] by {}
        assert forall|i: int| 0 <= i < entries.len() && is_bucket(#[trigger] entries[i]) implies all.contains(
        BucketInfoView { name: entries[i]->Ok_0.name@, creation_unix: entries[i]->Ok_0.mtime }) by {
            let b = BucketInfoView {
                name: entries[i]->Ok_0.name@,
                creation_unix: entries[i]->Ok_0.mtime,
            };
            if i == 0 {
                assert(all[0] == b);
            } else {
                assert(rest[i - 1] == entries[i]);
                let k = later.index_of(b);
                assert(all[n + k] == b);
            }
        }
        assert forall|b: BucketInfoView| #[trigger] all.contains(b) implies is_bucket_of(entries, b) by {
            let k = all.index_of(b);
            if k < n {
                assert(is_bucket(entries[0]));
            } else {
                assert(later[k - n] == b);
                assert(later.contains(b));
                let i = choose|i: int|
                    0 <= i < rest.len() && is_bucket(#[trigger] rest[i]) && rest[i]->Ok_0.name@
                        == b.name && rest[i]->Ok_0.mtime == b.creation_unix;
                assert(entries[i + 1] == rest[i]);
            }
        }
    }
}

pub open spec fn is_bucket_of(entries: Seq<Result<Entry, IoError>>, b: BucketInfoView) -> bool {
    exists|i: int|
        0 <= i < entries.len() && is_bucket(#[trigger] entries[i]) && entries[i]->Ok_0.name@ == b.name
            && entries[i]->Ok_0.mtime == b.creation_unix
}

/// The list of buckets: every directory that no dot hides, in the order of the names, with the time
/// of its entry, and nothing else.
pub proof fn buckets_are_listed_by_name(
    entries: Vec<Result<Entry, IoError>>,
    r: Result<Vec<BucketInfo>, StorageError>,
)
    requires
        call_ensures(
            buckets_listed,
            (Ok::<Vec<Result<Entry, IoError>>, IoError>(entries),),
            r,
        ),
        forall|i: int| 0 <= i < entries@.len() ==> #[trigger] entries@[i] is Ok,
    ensures
        r is Ok,
        r->Ok_0@.len() <= entries@.len(),
        forall|i: int, j: int|
            0 <= i < j < r->Ok_0@.len() ==> !less(
                (#[trigger] r->Ok_0@[j]).name@,
                (#[trigger] r->Ok_0@[i]).name@,
            ),
        forall|k: int|
            0 <= k < r->Ok_0@.len() ==> is_bucket_of(entries@, (#[trigger] r->Ok_0@[k])@),
        forall|i: int|
            0 <= i < entries@.len() && is_bucket(#[trigger] entries@[i]) ==> lists_bucket(
                r->Ok_0@,
                entries@[i]->Ok_0,
            ),
{
    broadcast use vstd::seq_lib::group_to_multiset_ensures;

    lemma_bucket_list(entries@);
    let list = r->Ok_0@;
    let views = bucket_infos(list);
    let all = bucket_list(entries@);
    assert(views.to_multiset() == all.to_multiset());
    assert(views.to_multiset().len() == views.len());
    assert(all.to_multiset().len() == all.len());
    lemma_in_text_order(info_names(all));
    assert forall|i: int, j: int| 0 <= i < j < list.len() implies !less(
        (#[trigger] list[j]).name@,
        (#[trigger] list[i]).name@,
    ) by {
        let ns = info_names(views);
        assert(ns[i] == list[i].name@ && ns[j] == list[j].name@);
        assert(!text_before(ns[j], ns[i]));
        lemma_less_at(encode_utf8(list[j].name@), encode_utf8(list[i].name@));
    }
    assert forall|b: BucketInfoView| views.contains(b) <==> all.contains(b) by {
        assert(views.to_multiset().count(b) == all.to_multiset().count(b));
        assert(views.contains(b) <==> views.to_multiset().count(b) > 0);
        assert(all.contains(b) <==> all.to_multiset().count(b) > 0);
    }
    assert forall|k: int| 0 <= k < list.len() implies is_bucket_of(entries@, (#[trigger] list[k])@) by {
        assert(views[k] == list[k]@);
        assert(views.contains(views[k]));
        assert(all.contains(list[k]@));
    }
    assert forall|i: int| 0 <= i < entries@.len() && is_bucket(#[trigger] entries@[i]) implies lists_bucket(
    list, entries@[i]->Ok_0) by {
        let e = entries@[i]->Ok_0;
        let b = BucketInfoView { name: e.name@, creation_unix: e.mtime };
        assert(all.contains(b));
        assert(views.contains(b));
        let k = views.index_of(b);
        assert(list[k]@ == b);
    }
}

pub open spec fn lists_bucket(list: Seq<BucketInfo>, e: Entry) -> bool {
    exists|k: int|
        0 <= k < list.len() && (#[trigger] list[k]).name@ == e.name@ && list[k].creation_unix
            == e.mtime
}

/// A data root that is not there has no buckets. An entry that cannot be read fails the list.
pub proof fn unreadable_entry_fails_the_list(
    listing: Result<Vec<Result<Entry, IoError>>, IoError>,
    r: Result<Vec<BucketInfo>, StorageError>,
)
    requires
        call_ensures(buckets_listed, (listing,), r),
    ensures
        listing is Err && listing->Err_0.kind == IoErrorKind::NotFound ==> (r matches Ok(list)
            && list@.len() == 0),
        listing is Err && listing->Err_0.kind != IoErrorKind::NotFound ==> r == Err::<
            Vec<BucketInfo>,
            StorageError,
        >(StorageError::Io(listing->Err_0)),
        listing matches Ok(entries) ==> ((exists|i: int|
            0 <= i < entries@.len() && #[trigger] entries@[i] is Err) ==> (r matches Err(e) && e
            is Io)),
{
    if let Ok(entries) = listing {
        if exists|i: int| 0 <= i < entries@.len() && #[trigger] entries@[i] is Err {
            let i = choose|i: int| 0 <= i < entries@.len() && #[trigger] entries@[i] is Err;
            lemma_first_error(entries@, i);
        }
    }
}

pub proof fn lemma_first_error(entries: Seq<Result<Entry, IoError>>, i: int)
    requires
        0 <= i < entries.len(),
        entries[i] is Err,
    ensures
        first_error(entries) is Some,
    decreases entries.len(),
{
    if i > 0 && entries[0] is Ok {
        assert(entries.skip(1)[i - 1] == entries[i]);
        lemma_first_error(entries.skip(1), i - 1);
    }
}

proof fn lemma_kept(entries: Seq<Result<Entry, IoError>>)
    requires
        forall|i: int| 0 <= i < entries.len() ==> #[trigger] entries[i] is Ok,
    ensures
        kept_because(entries) is None <==> forall|i: int|
            0 <= i < entries.len() ==> (#[trigger] entries[i])->Ok_0.name@ == ".multipart"@,
        kept_because(entries) is Some ==> kept_because(entries)->0 == StorageError::BucketNotEmpty,
    decreases entries.len(),
{
    if entries.len() > 0 {
        let rest = entries.skip(1);
        assert forall|i: int| 0 <= i < rest.len() implies #[trigger] rest[i] is Ok by {
            assert(entries[i + 1] is Ok);
        }
        assert(entries[0] is Ok);
        lemma_kept(rest);
        if forall|i: int|
            0 <= i < entries.len() ==> (#[trigger] entries[i])->Ok_0.name@ == ".multipart"@ {
            assert forall|i: int| 0 <= i < rest.len() implies (#[trigger] rest[i])->Ok_0.name@
                == ".multipart"@ by {
                assert(entries[i + 1] == rest[i]);
            }
        }
        if kept_because(entries) is None {
            assert forall|i: int| 0 <= i < entries.len() implies (#[trigger] entries[i])->Ok_0.name@
                == ".multipart"@ by {
                if i > 0 {
                    assert(rest[i - 1] == entries[i]);
                }
            }
        }
    }
}

/// In the plain layout a bucket that holds anything but the directory of its uploads is kept. Any
/// other is removed, the directory of its uploads first.
pub proof fn plain_bucket_with_an_entry_is_kept(
    entries: Vec<Result<Entry, IoError>>,
    r: Result<Plan, StorageError>,
)
    requires
        call_ensures(bucket_listed, (Ok::<Vec<Result<Entry, IoError>>, IoError>(entries),), r),
        forall|i: int| 0 <= i < entries@.len() ==> #[trigger] entries@[i] is Ok,
    ensures
        (exists|i: int|
            0 <= i < entries@.len() && (#[trigger] entries@[i])->Ok_0.name@ != ".multipart"@)
            ==> r == Err::<Plan, StorageError>(StorageError::BucketNotEmpty),
        (forall|i: int|
            0 <= i < entries@.len() ==> (#[trigger] entries@[i])->Ok_0.name@ == ".multipart"@) ==> (
        r matches Ok(plan) && plan@ == seq![
            StepView::Do { call: CallView::RemoveDirAll { at: Place::BucketUploads }, rule: may() },
            StepView::Do {
                call: CallView::RemoveDir { at: Place::Bucket },
                rule: must(Report::Io),
            },
            StepView::Finish { outcome: OutcomeView::Nothing },
        ]),
{
    lemma_kept(entries@);
}

} // verus!
