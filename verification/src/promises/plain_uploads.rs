//! Uploads in parts in the plain layout: beginning one, giving it up, listing them, and where the
//! parts go.

use vstd::prelude::*;
use vstd::utf8::encode_utf8;
use crate::cas::store::Env;
use crate::filesystem::store::{validate_object_path, Filesystem};
use crate::filesystem::uploads::{
    by_key, listed_uploads, store_steps, uploads_come_out_by_key, with_key, PlainAssembling,
    PlainUploadsListing,
};
use crate::metadata::{part_refs, PartRefView};
use crate::numbers::{part_name, part_stem};
use crate::plan::call::{CallView, OutcomeView, PlainPart, QuestionView, Report};
use crate::plan::place::Place;
use crate::plan::runner::{must, Plan, StepView};
use crate::promises::listing::lemma_less_at;
use crate::promises::uploads::{answers_uploads, less};
use crate::text::{lemma_text_order, text_before};
use crate::types::{
    pairs, IoError, IoErrorKind, MultipartUpload, MultipartUploadView, StorageError,
};

verus! {

/// An upload that is begun is recorded with its bucket, its key, its type, its metadata and the
/// time, and is answered with its id. The bucket has to be there.
pub proof fn begun_plain_upload_is_recorded(
    fs: &Filesystem,
    bucket: &str,
    key: &str,
    content_type: &str,
    user_metadata: Vec<(String, String)>,
    id: String,
    now: i64,
    names: Result<(), StorageError>,
    r: Plan,
)
    requires
        call_ensures(
            Filesystem::create_multipart_upload,
            (fs, bucket, key, content_type, user_metadata, id, now),
            r,
        ),
        call_ensures(validate_object_path, (bucket, key), names),
    ensures
        names is Err ==> r@ == seq![StepView::Fail { error: StorageError::PathTraversal }],
        names is Ok ==> r@ == seq![
            StepView::Do {
                call: CallView::CheckLinkedDir { at: Place::Bucket },
                rule: must(Report::NoBucket),
            },
            StepView::Do {
                call: CallView::CreateDirAll {
                    at: Place::PlainUploadFile { id: id@, name: "parts"@ },
                },
                rule: must(Report::Io),
            },
            StepView::Do {
                call: CallView::WriteUpload {
                    at: Place::PlainUploadFile { id: id@, name: "meta.json"@ },
                    upload: MultipartUploadView {
                        upload_id: id@,
                        bucket: bucket@,
                        key: key@,
                        initiated_unix: now,
                        content_type: content_type@,
                        user_metadata: pairs(user_metadata@),
                    },
                    sync: false,
                },
                rule: must(Report::Io),
            },
            StepView::Finish { outcome: OutcomeView::UploadId { id: id@ } },
        ],
{
}

/// An upload is there where its record is.
pub open spec fn looks_for_upload(id: Seq<char>) -> StepView {
    StepView::Do {
        call: CallView::CheckExists { at: Place::PlainUploadFile { id, name: "meta.json"@ } },
        rule: must(Report::Given(StorageError::NoSuchUpload)),
    }
}

/// Giving up an upload removes its directory; its parts are listed from its directory. An upload
/// that is not there is reported.
pub proof fn plain_upload_is_found_by_its_record(
    fs: &Filesystem,
    id: &str,
    abort: Plan,
    list: Plan,
)
    requires
        call_ensures(Filesystem::abort_multipart_upload, (fs, id), abort),
        call_ensures(Filesystem::list_parts, (fs, id), list),
    ensures
        abort@ == seq![
            looks_for_upload(id@),
            StepView::Do {
                call: CallView::RemoveDirAll { at: Place::PlainUpload { id: id@ } },
                rule: must(Report::Io),
            },
            StepView::Finish { outcome: OutcomeView::Nothing },
        ],
        list@ == seq![
            looks_for_upload(id@),
            StepView::Ask { question: QuestionView::ListPlainParts { id: id@ } },
        ],
{
}

/// The upload is for the bucket of the request. A request without a bucket is for all uploads.
pub open spec fn is_wanted(
    entry: Result<Option<MultipartUpload>, IoError>,
    bucket: Seq<char>,
) -> bool {
    entry matches Ok(Some(u)) && (bucket.len() == 0 || u.bucket@ == bucket)
}

pub open spec fn is_found(
    entries: Seq<Result<Option<MultipartUpload>, IoError>>,
    bucket: Seq<char>,
    u: MultipartUploadView,
) -> bool {
    exists|i: int|
        0 <= i < entries.len() && is_wanted(#[trigger] entries[i], bucket) && entries[i]->Ok_0->0@
            == u
}

proof fn lemma_listed(entries: Seq<Result<Option<MultipartUpload>, IoError>>, bucket: Seq<char>)
    requires
        forall|i: int| 0 <= i < entries.len() ==> #[trigger] entries[i] is Ok,
    ensures
        listed_uploads(entries, bucket) is Ok,
        listed_uploads(entries, bucket)->Ok_0.len() <= entries.len(),
        forall|u: MultipartUploadView|
            #[trigger] listed_uploads(entries, bucket)->Ok_0.contains(u) <==> is_found(
                entries,
                bucket,
                u,
            ),
    decreases entries.len(),
{
    if entries.len() > 0 {
        let front = entries.drop_last();
        assert forall|i: int| 0 <= i < front.len() implies #[trigger] front[i] is Ok by {
            assert(entries[i] is Ok);
        }
        lemma_listed(front, bucket);
        let last = entries.last();
        assert(entries[entries.len() - 1] is Ok);
        let early = listed_uploads(front, bucket)->Ok_0;
        let all = listed_uploads(entries, bucket)->Ok_0;
        assert(all == if is_wanted(last, bucket) {
            early.push(last->Ok_0->0@)
        } else {
            early
        });
        assert forall|u: MultipartUploadView| #[trigger] all.contains(u) <==> is_found(
            entries,
            bucket,
            u,
        ) by {
            if all.contains(u) {
                let k = all.index_of(u);
                if k < early.len() {
                    assert(early[k] == u);
                    assert(early.contains(u));
                    let i = choose|i: int|
                        0 <= i < front.len() && is_wanted(#[trigger] front[i], bucket)
                            && front[i]->Ok_0->0@ == u;
                    assert(entries[i] == front[i]);
                } else {
                    assert(is_wanted(entries[entries.len() - 1], bucket));
                }
            }
            if is_found(entries, bucket, u) {
                let i = choose|i: int|
                    0 <= i < entries.len() && is_wanted(#[trigger] entries[i], bucket)
                        && entries[i]->Ok_0->0@ == u;
                if i < front.len() {
                    assert(front[i] == entries[i]);
                    assert(early.contains(u));
                    let k = early.index_of(u);
                    assert(all[k] == u);
                } else {
                    assert(all[all.len() - 1] == u);
                }
            }
        }
    }
}

/// The uploads of a bucket are listed in the order of their keys, all of them and no others.
pub proof fn plain_uploads_are_listed_by_key(
    listing: PlainUploadsListing,
    entries: Vec<Result<Option<MultipartUpload>, IoError>>,
    r: Result<Plan, StorageError>,
)
    requires
        call_ensures(
            PlainUploadsListing::found,
            (listing, Ok::<Vec<Result<Option<MultipartUpload>, IoError>>, IoError>(entries)),
            r,
        ),
        forall|i: int| 0 <= i < entries@.len() ==> #[trigger] entries@[i] is Ok,
    ensures
        r matches Ok(plan) && exists|uploads: Seq<MultipartUploadView>|
            #[trigger] answers_uploads(plan@, uploads, false) && uploads.len() <= entries@.len() && (
            forall|i: int, j: int|
                0 <= i < j < uploads.len() ==> !less(
                    (#[trigger] uploads[j]).key,
                    (#[trigger] uploads[i]).key,
                )) && (forall|u: MultipartUploadView|
                #[trigger] uploads.contains(u) <==> is_found(entries@, listing.bucket@, u)),
{
    broadcast use vstd::seq_lib::group_to_multiset_ensures;

    lemma_listed(entries@, listing.bucket@);
    let found = listed_uploads(entries@, listing.bucket@)->Ok_0;
    uploads_come_out_by_key(found);
    let uploads = by_key(found);
    assert(uploads.to_multiset().len() == uploads.len());
    assert(found.to_multiset().len() == found.len());
    let plan = r->Ok_0;
    assert(answers_uploads(plan@, uploads, false));
    assert forall|i: int, j: int| 0 <= i < j < uploads.len() implies !less(
        (#[trigger] uploads[j]).key,
        (#[trigger] uploads[i]).key,
    ) by {
        assert(!text_before(uploads[j].key, uploads[i].key));
        lemma_less_at(encode_utf8(uploads[j].key), encode_utf8(uploads[i].key));
    }
    assert forall|u: MultipartUploadView| #[trigger] uploads.contains(u) <==> is_found(
        entries@,
        listing.bucket@,
        u,
    ) by {
        assert(uploads.to_multiset().count(u) == found.to_multiset().count(u));
        assert(uploads.contains(u) <==> uploads.to_multiset().count(u) > 0);
        assert(found.contains(u) <==> found.to_multiset().count(u) > 0);
    }
}

/// An upload area that is not there has no uploads.
pub proof fn missing_upload_area_has_no_uploads(
    listing: PlainUploadsListing,
    e: IoError,
    r: Result<Plan, StorageError>,
)
    requires
        call_ensures(
            PlainUploadsListing::found,
            (listing, Err::<Vec<Result<Option<MultipartUpload>, IoError>>, IoError>(e)),
            r,
        ),
    ensures
        e.kind == IoErrorKind::NotFound ==> (r matches Ok(plan) && answers_uploads(
            plan@,
            Seq::empty(),
            false,
        )),
        e.kind != IoErrorKind::NotFound ==> r == Err::<Plan, StorageError>(StorageError::Io(e)),
{
}

/// The step that moves a part next to the data file.
pub open spec fn stores_part(id: Seq<char>, key: Seq<char>, name: Seq<char>) -> StepView {
    StepView::Do {
        call: CallView::Rename {
            src: Place::PlainPart { id, name },
            dst: Place::StoredPart { key, name },
        },
        rule: must(Report::Io),
    }
}

proof fn lemma_stored(id: Seq<char>, key: Seq<char>, parts: Seq<PartRefView>, i: int)
    requires
        0 <= i < parts.len(),
    ensures
        store_steps(id, key, parts).contains(
            stores_part(id, key, part_name(parts[i].part_number as int)),
        ),
    decreases parts.len(),
{
    let front = parts.drop_last();
    let all = store_steps(id, key, parts);
    let step = stores_part(id, key, part_name(parts[i].part_number as int));
    if i < front.len() {
        lemma_stored(id, key, front, i);
        let k = store_steps(id, key, front).index_of(step);
        assert(all[k] == step);
    } else {
        assert(all[all.len() - 1] == step);
    }
}

/// Once the last claimed part was looked at, every part is moved next to the data file, under the
/// name of its number.
pub proof fn checked_parts_are_moved(
    a: PlainAssembling,
    env: &Env,
    part: PlainPart,
    r: Result<(PlainAssembling, Plan), StorageError>,
    i: int,
    name: String,
)
    requires
        call_ensures(PlainAssembling::probed, (a, env, part), r),
        r is Ok,
        a.found@.len() + 1 == a.parts@.len(),
        0 <= i < r->Ok_0.0.found@.len(),
        call_ensures(part_stem, (r->Ok_0.0.found@[i].part_number,), name),
    ensures
        r->Ok_0.1@.contains(stores_part(a.upload_id@, a.upload.key@, name@)),
{
    let (b, plan) = r->Ok_0;
    let parts = part_refs(b.found@);
    assert(parts.len() == part_refs(a.found@).len() + 1);
    assert(part_refs(a.found@).len() == a.found@.len());
    assert(parts[i] == b.found@[i]@);
    lemma_stored(b.upload_id@, a.upload.key@, parts, i);
    let store = store_steps(b.upload_id@, a.upload.key@, parts);
    let step = stores_part(a.upload_id@, a.upload.key@, name@);
    let k = store.index_of(step);
    assert(plan@[3 + k] == store[k]);
}

/// The uploads of a key among others, in their order.
pub open spec fn of_key(list: Seq<MultipartUploadView>, key: Seq<char>) -> Seq<MultipartUploadView> {
    list.filter(|u: MultipartUploadView| u.key == key)
}

/// The uploads that a scan found, in its order.
pub open spec fn wanted_of(
    entries: Seq<Result<Option<MultipartUpload>, IoError>>,
    bucket: Seq<char>,
) -> Seq<MultipartUploadView> {
    entries.filter_map(
        |e: Result<Option<MultipartUpload>, IoError>|
            if is_wanted(e, bucket) {
                Some(e->Ok_0->0@)
            } else {
                None
            },
    )
}

proof fn lemma_of_key(list: Seq<MultipartUploadView>, u: MultipartUploadView, key: Seq<char>)
    ensures
        of_key(list.push(u), key) == (if u.key == key {
            of_key(list, key).push(u)
        } else {
            of_key(list, key)
        }),
{
    reveal(Seq::filter);
    assert(list.push(u).drop_last() =~= list);
}

proof fn lemma_put_in(list: Seq<MultipartUploadView>, u: MultipartUploadView, key: Seq<char>)
    ensures
        of_key(with_key(list, u), key) == of_key(list.push(u), key),
    decreases list.len(),
{
    lemma_of_key(list, u, key);
    if list.len() > 0 && text_before(u.key, list.last().key) {
        let front = list.drop_last();
        let last = list.last();
        lemma_put_in(front, u, key);
        lemma_of_key(with_key(front, u), last, key);
        lemma_of_key(front, u, key);
        lemma_of_key(front, last, key);
        assert(front.push(last) =~= list);
        lemma_text_order(u.key, last.key);
    }
}

proof fn lemma_by_key_keeps(list: Seq<MultipartUploadView>, key: Seq<char>)
    ensures
        of_key(by_key(list), key) == of_key(list, key),
    decreases list.len(),
{
    if list.len() > 0 {
        let front = list.drop_last();
        lemma_by_key_keeps(front, key);
        lemma_put_in(by_key(front), list.last(), key);
        lemma_of_key(by_key(front), list.last(), key);
        lemma_of_key(front, list.last(), key);
        assert(front.push(list.last()) =~= list);
    }
}

proof fn lemma_wanted(entries: Seq<Result<Option<MultipartUpload>, IoError>>, bucket: Seq<char>)
    requires
        forall|i: int| 0 <= i < entries.len() ==> #[trigger] entries[i] is Ok,
    ensures
        listed_uploads(entries, bucket) == Ok::<Seq<MultipartUploadView>, IoError>(
            wanted_of(entries, bucket),
        ),
    decreases entries.len(),
{
    if entries.len() > 0 {
        let front = entries.drop_last();
        assert forall|i: int| 0 <= i < front.len() implies #[trigger] front[i] is Ok by {
            assert(entries[i] is Ok);
        }
        lemma_wanted(front, bucket);
        let last = entries.last();
        assert(entries[entries.len() - 1] is Ok);
        assert(wanted_of(entries, bucket) =~= if is_wanted(last, bucket) {
            wanted_of(front, bucket).push(last->Ok_0->0@)
        } else {
            wanted_of(front, bucket)
        });
    }
}

/// Uploads of one key are listed in the order in which they were found.
pub proof fn uploads_of_a_key_keep_their_order(
    listing: PlainUploadsListing,
    entries: Vec<Result<Option<MultipartUpload>, IoError>>,
    r: Result<Plan, StorageError>,
    uploads: Seq<MultipartUploadView>,
    key: Seq<char>,
)
    requires
        call_ensures(
            PlainUploadsListing::found,
            (listing, Ok::<Vec<Result<Option<MultipartUpload>, IoError>>, IoError>(entries)),
            r,
        ),
        forall|i: int| 0 <= i < entries@.len() ==> #[trigger] entries@[i] is Ok,
        r matches Ok(plan) && answers_uploads(plan@, uploads, false),
    ensures
        of_key(uploads, key) == of_key(wanted_of(entries@, listing.bucket@), key),
{
    lemma_wanted(entries@, listing.bucket@);
    let found = wanted_of(entries@, listing.bucket@);
    lemma_by_key_keeps(found, key);
    assert(r->Ok_0@[0] == (StepView::Finish {
        outcome: OutcomeView::Uploads { uploads: by_key(found), truncated: false },
    }));
}

proof fn lemma_first_failure(
    entries: Seq<Result<Option<MultipartUpload>, IoError>>,
    bucket: Seq<char>,
    i: int,
)
    requires
        0 <= i < entries.len(),
        entries[i] is Err,
        forall|k: int| 0 <= k < i ==> #[trigger] entries[k] is Ok,
    ensures
        listed_uploads(entries, bucket) == Err::<Seq<MultipartUploadView>, IoError>(
            entries[i]->Err_0,
        ),
    decreases entries.len(),
{
    let front = entries.drop_last();
    if i < front.len() {
        assert forall|k: int| 0 <= k < i implies #[trigger] front[k] is Ok by {
            assert(entries[k] is Ok);
        }
        lemma_first_failure(front, bucket, i);
    } else {
        assert forall|k: int| 0 <= k < front.len() implies #[trigger] front[k] is Ok by {
            assert(entries[k] is Ok);
        }
        lemma_wanted(front, bucket);
    }
}

/// The first upload that cannot be read fails the listing.
pub proof fn unreadable_upload_fails_the_listing(
    listing: PlainUploadsListing,
    entries: Vec<Result<Option<MultipartUpload>, IoError>>,
    i: int,
    r: Result<Plan, StorageError>,
)
    requires
        call_ensures(
            PlainUploadsListing::found,
            (listing, Ok::<Vec<Result<Option<MultipartUpload>, IoError>>, IoError>(entries)),
            r,
        ),
        0 <= i < entries@.len(),
        entries@[i] is Err,
        forall|k: int| 0 <= k < i ==> #[trigger] entries@[k] is Ok,
    ensures
        r == Err::<Plan, StorageError>(StorageError::Io(entries@[i]->Err_0)),
{
    lemma_first_failure(entries@, listing.bucket@, i);
}

} // verus!
