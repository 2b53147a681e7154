//! Uploads in parts: whose they are, what is recorded of their parts, and what is listed.

use vstd::prelude::*;
use vstd::utf8::encode_utf8;
use crate::blob::BlobInfo;

use crate::cas::parts::{
    assert_upload_matches, blobs_of_parts, find_part, last_record_counts, make_ref_name, part_at,
    part_table, part_table_is_ordered, read_part_refs, recorded_part, ref_tmp_name, table_blobs,
    upload_dir,
};
use crate::cas::records::{part_records, PartRefFile, PartRefFileView};
use crate::cas::store::{
    reclaim_steps, validate_bucket_component, validate_object_path, CasStore, Env,
};
use crate::cas::uploads::{
    by_signed_number, create_steps, install_steps, kept_steps, listed_parts, low_parts, open_upload,
    ordered_uploads, scanned_uploads, upload_before, uploads_come_out_in_order, Aborting,
    PartInstalled, PartStored, PartTimes, PartUpload, PartsListing, UploadsListing,
};
use crate::numbers::part_stem;
use crate::outside::{is_canonical_uuid, is_uuid_text};
use crate::path::within;
use crate::plan::call::{
    CallView, DirState, EntryKind, OutcomeView, QuestionView, RefEntry, Report, StoredRef,
    UploadDir, UploadProbe,
};
use crate::plan::place::Place;
use crate::plan::runner::{may, must, OnError, Plan, Rule, StepView};
use crate::promises::listing::{is_less_at, lemma_less_at, occurs_at};
use crate::promises::objects::lemma_reclaimed;
use crate::promises::plain_parts::answers_parts;
use crate::text::{has_text, stands_at, texts};
use crate::types::{
    pairs, IoError, IoErrorKind, MultipartUpload, MultipartUploadView, PartInfoView, StorageError,
};

verus! {

/// The upload that was found is the one of the request. Its directory has to be a proper one the
/// first time it is looked at.
pub open spec fn belongs(probe: UploadProbe, bucket: Seq<char>, key: Seq<char>, first: bool) -> bool {
    &&& first ==> probe.dir is Present || probe.dir is Missing
    &&& !probe.completed
    &&& (probe.upload matches Ok(u) && u.bucket@ == bucket && u.key@ == key)
}

/// Nothing failed but that the upload is not there, is finished, or is another one.
pub open spec fn is_no_upload(probe: UploadProbe, first: bool) -> bool {
    ||| first && probe.dir is Foreign
    ||| !(first && probe.dir is Failed) && (probe.completed || probe.upload is Ok || (
    probe.upload->Err_0.kind == IoErrorKind::NotFound))
}

/// An upload is found exactly where its record names the bucket and the key of the request, it is
/// not marked as completed, and its directory is no foreign one. Any other upload is one that does
/// not exist; only a failure to look is reported as that.
pub proof fn upload_is_found_by_its_bucket_and_key(
    probe: UploadProbe,
    bucket: &str,
    key: &str,
    first: bool,
    r: Result<MultipartUpload, StorageError>,
)
    requires
        call_ensures(assert_upload_matches, (probe, bucket, key, first), r),
    ensures
        r is Ok <==> belongs(probe, bucket@, key@, first),
        r matches Ok(u) ==> probe.upload == Ok::<MultipartUpload, IoError>(u),
        r is Err && is_no_upload(probe, first) ==> r->Err_0 == StorageError::NoSuchUpload,
        r is Err && !is_no_upload(probe, first) ==> r->Err_0 is Io,
{
}

/// Every request for an upload goes on exactly where the upload is the one of the request.
pub proof fn requests_go_on_with_their_upload(
    env: &Env,
    probe: UploadProbe,
    part: &PartUpload,
    part_next: Result<Plan, StorageError>,
    stored: &PartStored,
    stored_next: Result<Plan, StorageError>,
    abort: &Aborting,
    abort_next: Result<Plan, StorageError>,
    listing: &PartsListing,
    listing_next: Result<Plan, StorageError>,
)
    requires
        call_ensures(PartUpload::admitted, (part, env, probe), part_next),
        call_ensures(PartStored::rechecked, (stored, env, probe), stored_next),
        call_ensures(Aborting::admitted, (abort, env, probe), abort_next),
        call_ensures(PartsListing::admitted, (listing, env, probe), listing_next),
    ensures
        part_next is Ok <==> belongs(probe, env.bucket@, part.key@, true),
        stored_next is Ok <==> belongs(probe, env.bucket@, stored.part.key@, false),
        abort_next is Ok <==> belongs(probe, env.bucket@, abort.key@, true),
        listing_next is Ok <==> belongs(probe, env.bucket@, listing.key@, true),
        part_next matches Ok(plan) ==> plan@.last() == (StepView::Ask {
            question: QuestionView::StreamBlob { id: part.blob_id@ },
        }),
        abort_next matches Ok(plan) ==> plan@.last() == (StepView::Ask {
            question: QuestionView::ReadPartRefs { id: abort.upload_id@ },
        }),
        listing_next matches Ok(plan) ==> plan@ == seq![
            StepView::Ask { question: QuestionView::ReadPartRefs { id: listing.upload_id@ } },
        ],
        part_next is Err && is_no_upload(probe, true) ==> part_next->Err_0
            == StorageError::NoSuchUpload,
        stored_next is Err && is_no_upload(probe, false) ==> stored_next->Err_0
            == StorageError::NoSuchUpload,
        abort_next is Err && is_no_upload(probe, true) ==> abort_next->Err_0
            == StorageError::NoSuchUpload,
        listing_next is Err && is_no_upload(probe, true) ==> listing_next->Err_0
            == StorageError::NoSuchUpload,
{
}

/// What stands where the directory of an upload should be: only a real directory inside the data
/// root is one.
pub proof fn upload_directory_lies_in_the_root(
    found: Result<EntryKind, IoError>,
    dir: &Option<String>,
    root: &Option<String>,
    a: &str,
    b: &str,
    inside: bool,
    r: DirState,
)
    requires
        call_ensures(upload_dir, (found, dir, root), r),
        call_ensures(within, (a, b), inside),
        *root matches Some(t) ==> a@ == t@,
        *dir matches Some(t) ==> b@ == t@,
    ensures
        found matches Err(e) ==> r == (if e.kind == IoErrorKind::NotFound {
            DirState::Missing
        } else {
            DirState::Failed(e)
        }),
        found == Ok::<EntryKind, IoError>(EntryKind::Directory) ==> r == (if *root is Some && *dir
            is Some && !inside {
            DirState::Foreign
        } else {
            DirState::Present
        }),
        found is Ok && !(found->Ok_0 is Directory) ==> r == DirState::Foreign,
{
}

/// A request for an upload: a bucket that cannot exist is refused, a missing bucket is reported
/// before a missing upload, and an id that is none names no upload.
pub proof fn upload_is_looked_for_in_its_bucket(
    bucket: &str,
    id: &str,
    name: Result<(), StorageError>,
    r: Plan,
)
    requires
        call_ensures(open_upload, (bucket, id), r),
        call_ensures(validate_bucket_component, (bucket,), name),
    ensures
        name is Err ==> r@ == seq![StepView::Fail { error: StorageError::PathTraversal }],
        name is Ok ==> r@.len() == 2 && r@[0] == (StepView::Do {
            call: CallView::CheckDir { at: Place::Bucket },
            rule: must(Report::NoBucket),
        }),
        name is Ok && is_uuid_text(id@) ==> r@[1] == (StepView::Ask {
            question: QuestionView::ProbeUpload { id: id@ },
        }),
        name is Ok && !is_uuid_text(id@) ==> r@[1] == (StepView::Fail {
            error: StorageError::NoSuchUpload,
        }),
{
}

/// A part number is between 1 and 10000. A part with another number is refused before anything is
/// looked at; one with such a number is handed to the upload.
pub proof fn part_number_has_its_range(
    store: &CasStore,
    bucket: &str,
    key: &str,
    id: &str,
    n: i32,
    blob_id: String,
    tmp: String,
    restore: String,
    r: (PartUpload, Plan),
    opened: Plan,
)
    requires
        call_ensures(CasStore::upload_part, (store, bucket, key, id, n, blob_id, tmp, restore), r),
        call_ensures(open_upload, (bucket, id), opened),
    ensures
        n < 1 || n > 10000 ==> r.1@ == seq![StepView::Fail { error: StorageError::InvalidPart }],
        1 <= n <= 10000 ==> r.1@ == opened@,
        r.0.part_number == n,
        r.0.key@ == key@,
        r.0.upload_id@ == id@,
        r.0.blob_id == blob_id,
{
}

/// An upload that is begun is recorded with its bucket, its key, its type, its metadata and the
/// time, and is answered with its id.
pub proof fn begun_upload_is_recorded(
    store: &CasStore,
    bucket: &str,
    key: &str,
    content_type: &str,
    user_metadata: Vec<(String, String)>,
    id: String,
    now: i64,
    names: Result<(), StorageError>,
    r: Plan,
)
    requires
        call_ensures(
            CasStore::create_multipart_upload,
            (store, bucket, key, content_type, user_metadata, id, now),
            r,
        ),
        call_ensures(validate_object_path, (bucket, key), names),
    ensures
        names is Err ==> r@ == seq![StepView::Fail { error: StorageError::PathTraversal }],
        names is Ok ==> r@.last() == (StepView::Finish {
            outcome: OutcomeView::UploadId { id: id@ },
        }),
        names is Ok ==> exists|sync: bool|
            r@.contains(
                #[trigger] records_upload(
                    id@,
                    bucket@,
                    key@,
                    content_type@,
                    pairs(user_metadata@),
                    now,
                    sync,
                ),
            ),
{
    if names is Ok {
        let fsync = store.durable();
        let u = MultipartUploadView {
            upload_id: id@,
            bucket: bucket@,
            key: key@,
            initiated_unix: now,
            content_type: content_type@,
            user_metadata: pairs(user_metadata@),
        };
        assert(r@ == create_steps(bucket@, u, fsync));
        let n = r@.len() as int;
        let i = if fsync {
            n - 3
        } else {
            n - 2
        };
        assert(r@[i] == records_upload(
            id@,
            bucket@,
            key@,
            content_type@,
            pairs(user_metadata@),
            now,
            fsync,
        ));
    }
}

pub open spec fn records_upload(
    id: Seq<char>,
    bucket: Seq<char>,
    key: Seq<char>,
    content_type: Seq<char>,
    user_metadata: Seq<(Seq<char>, Seq<char>)>,
    now: i64,
    sync: bool,
) -> StepView {
    StepView::Do {
        call: CallView::WriteUpload {
            at: Place::UploadFile { id, name: "upload.json"@ },
            upload: MultipartUploadView {
                upload_id: id,
                bucket,
                key,
                initiated_unix: now,
                content_type,
                user_metadata,
            },
            sync,
        },
        rule: must(Report::Io),
    }
}

/// A part that was written is recorded with its number, its blob, its size and its digest, under
/// the name of its number, and is answered with the quoted digest. A blob that the record named
/// before is removed, unless it is the same one.
pub proof fn stored_part_is_recorded(
    part: PartUpload,
    env: &Env,
    info: BlobInfo,
    stored: Result<(PartStored, Plan), StorageError>,
    previous: Option<StoredRef>,
    r: (Option<PartInstalled>, Plan),
    synced: Plan,
    name: String,
)
    requires
        call_ensures(PartUpload::streamed, (part, env, Ok::<BlobInfo, IoError>(info)), stored),
        stored matches Ok(s) && call_ensures(PartStored::install, (s.0, env, previous), r),
        r.0 matches Some(p) ==> call_ensures(
            PartInstalled::synced,
            (p, env, Ok::<(), IoError>(())),
            synced,
        ),
        call_ensures(make_ref_name, (part.part_number,), name),
        part.part_number >= 0,
    ensures
        exists|tmp: Seq<char>|
            r.1@.contains(
                #[trigger] records_part(
                    part.upload_id@,
                    tmp,
                    PartRefFileView {
                        part_number: part.part_number as u32,
                        blob_id: part.blob_id@,
                        size: info.size,
                        md5_hex: info.md5_hex@,
                    },
                    env.fsync,
                ),
            ) && r.1@.contains(
                StepView::Do {
                    call: CallView::Rename {
                        src: Place::PartFile { id: part.upload_id@, name: tmp },
                        dst: Place::PartFile { id: part.upload_id@, name: name@ },
                    },
                    rule: must(Report::Io),
                },
            ),
        ({
            let end = if env.fsync {
                synced@
            } else {
                r.1@
            };
            &&& end.last() == (StepView::Finish {
                outcome: OutcomeView::Etag { etag: seq!['"'] + info.md5_hex@ + seq!['"'] },
            })
            &&& previous is Some && previous->0.blob_id@ != part.blob_id@ && is_canonical_uuid(
                previous->0.blob_id@,
            ) ==> end.contains(
                StepView::Do {
                    call: CallView::RemoveFile { at: Place::Blob { id: previous->0.blob_id@ } },
                    rule: may(),
                },
            )
            &&& forall|i: int|
                0 <= i < end.len() ==> !(#[trigger] end[i] matches StepView::Do { call, .. } && call
                    == (CallView::RemoveFile { at: Place::Blob { id: part.blob_id@ } }))
        }),
{
    let tmp = ref_tmp_name(part.part_number as int, part.tmp@);
    let s = stored->Ok_0.0;
    let front = install_steps(part.upload_id@, tmp, name@, s.record(), env.fsync);
    assert(r.1@[1] == front[1]);
    assert(r.1@[2] == front[2]);
    assert(r.1@[1] == records_part(
        part.upload_id@,
        tmp,
        PartRefFileView {
            part_number: part.part_number as u32,
            blob_id: part.blob_id@,
            size: info.size,
            md5_hex: info.md5_hex@,
        },
        env.fsync,
    ));
    let gone = crate::cas::uploads::superseded(previous, part.blob_id@);
    let kept = kept_steps(previous, part.blob_id@, info.md5_hex@);
    let end = if env.fsync {
        synced@
    } else {
        r.1@
    };
    let at = if env.fsync {
        0int
    } else {
        4int
    };
    assert(end.len() == at + kept.len());
    assert forall|i: int| 0 <= i < kept.len() implies end[at + i] == kept[i] by {}
    lemma_reclaimed(gone, may());
    let removals = reclaim_steps(gone, may());
    assert forall|i: int| 0 <= i < removals.len() implies kept[i + 1] == removals[i] by {}
    if previous is Some && previous->0.blob_id@ != part.blob_id@ && is_canonical_uuid(
        previous->0.blob_id@,
    ) {
        let step = StepView::Do {
            call: CallView::RemoveFile { at: Place::Blob { id: previous->0.blob_id@ } },
            rule: may(),
        };
        assert(gone[0] == previous->0.blob_id@);
        let k = removals.index_of(step);
        assert(end[at + k + 1] == step);
    }
    assert forall|i: int| 0 <= i < end.len() implies !(#[trigger] end[i] matches StepView::Do { call, .. }
        && call == (CallView::RemoveFile { at: Place::Blob { id: part.blob_id@ } })) by {
        if at < i < at + 1 + removals.len() {
            let k = i - at - 1;
            assert(end[i] == removals[k]);
        } else if i >= at {
            assert(end[i] == kept[i - at]);
        }
    }
}

/// A part whose record could not be made durable goes back to what it was: the record that was
/// there before is written back, or the new one is removed, and the request fails with the cause.
pub proof fn undurable_part_is_taken_back(
    p: PartInstalled,
    env: &Env,
    e: IoError,
    name: String,
    r: Plan,
)
    requires
        call_ensures(PartInstalled::synced, (p, env, Err::<(), IoError>(e)), r),
        call_ensures(make_ref_name, (p.part.part_number,), name),
    ensures
        r@.last() == (StepView::Fail { error: StorageError::Io(e) }),
        p.previous is None ==> r@.contains(
            StepView::Do {
                call: CallView::RemoveFile {
                    at: Place::PartFile { id: p.part.upload_id@, name: name@ },
                },
                rule: may(),
            },
        ),
        p.previous matches Some(old_ref) ==> exists|tmp: Seq<char>|
            r@.contains(
                #[trigger] written_back(p.part.upload_id@, tmp, old_ref.bytes@, env.fsync, e),
            ) && r@.contains(
                StepView::Do {
                    call: CallView::Rename {
                        src: Place::PartFile { id: p.part.upload_id@, name: tmp },
                        dst: Place::PartFile { id: p.part.upload_id@, name: name@ },
                    },
                    rule: must(Report::Given(StorageError::Io(e))),
                },
            ),
{
    if let Some(old_ref) = p.previous {
        let tmp = ref_tmp_name(p.part.part_number as int, p.part.restore_tmp@);
        assert(r@[2] == written_back(p.part.upload_id@, tmp, old_ref.bytes@, env.fsync, e));
        assert(r@[3] == (StepView::Do {
            call: CallView::Rename {
                src: Place::PartFile { id: p.part.upload_id@, name: tmp },
                dst: Place::PartFile { id: p.part.upload_id@, name: name@ },
            },
            rule: must(Report::Given(StorageError::Io(e))),
        }));
    } else {
        assert(r@[1] == (StepView::Do {
            call: CallView::RemoveFile {
                at: Place::PartFile { id: p.part.upload_id@, name: name@ },
            },
            rule: may(),
        }));
    }
}

pub open spec fn written_back(
    id: Seq<char>,
    tmp: Seq<char>,
    data: Seq<u8>,
    sync: bool,
    e: IoError,
) -> StepView {
    StepView::Do {
        call: CallView::WriteBytes { at: Place::PartFile { id, name: tmp }, data, sync },
        rule: must(Report::Given(StorageError::Io(e))),
    }
}

pub open spec fn records_part(
    id: Seq<char>,
    tmp: Seq<char>,
    part: PartRefFileView,
    sync: bool,
) -> StepView {
    StepView::Do {
        call: CallView::WritePartRef { at: Place::PartFile { id, name: tmp }, part, sync },
        rule: must(Report::Io),
    }
}

/// The file of a part record is named by the number of the part.
pub proof fn record_is_named_by_its_number(n: i32, stem: String, r: String)
    requires
        call_ensures(part_stem, (n,), stem),
        call_ensures(make_ref_name, (n,), r),
    ensures
        r@ == stem@ + ".ref"@,
{
}

/// A file of the part directory that records a part: it is no file that is being written, and the
/// number in its name is the one in its contents.
pub open spec fn is_record(entry: RefEntry, stem: Seq<char>) -> bool {
    &&& entry.name@ == stem + ".ref"@
    &&& forall|p: int| !#[trigger] occurs_at(entry.name@, ".tmp."@, p)
    &&& (entry.part matches Some(p) && crate::numbers::parsed_unsigned(stem, u32::MAX as nat)
        == Some(p.part_number as nat))
}

proof fn lemma_record(entry: RefEntry, stem: Seq<char>)
    requires
        entry.name@ == stem + ".ref"@,
    ensures
        is_record(entry, stem) <==> recorded_part(entry) is Some,
        is_record(entry, stem) ==> recorded_part(entry) == Some(entry.part->0@),
{
    let name = entry.name@;
    let n = name.len() - ".ref"@.len();
    assert(name.take(n) =~= stem);
    assert(name.subrange(n, name.len() as int) =~= ".ref"@);
    if !has_text(name, ".tmp."@) {
        assert forall|p: int| !#[trigger] occurs_at(name, ".tmp."@, p) by {
            if occurs_at(name, ".tmp."@, p) {
                assert(stands_at(name, ".tmp."@, p));
            }
        }
    } else {
        let p = choose|p: int| stands_at(name, ".tmp."@, p);
        assert(occurs_at(name, ".tmp."@, p));
    }
}

/// The table of the parts: in the order of the numbers, each number once, made of records only, and
/// for each number the last record counts. A directory that is not there has no parts, and only a
/// failure to read it is reported.
pub proof fn records_make_the_table(
    refs: Result<Vec<RefEntry>, IoError>,
    r: Result<Vec<PartRefFile>, StorageError>,
)
    requires
        call_ensures(read_part_refs, (refs,), r),
    ensures
        refs matches Err(e) ==> (if e.kind == IoErrorKind::NotFound {
            r matches Ok(table) && table@.len() == 0
        } else {
            r == Err::<Vec<PartRefFile>, StorageError>(StorageError::Io(e))
        }),
        refs matches Ok(entries) ==> (r matches Ok(table) && (forall|i: int, j: int|
            0 <= i < j < table@.len() ==> (#[trigger] table@[i]).part_number < (
            #[trigger] table@[j]).part_number) && (forall|k: int|
            0 <= k < table@.len() ==> is_recorded(entries@, (#[trigger] table@[k])@)) && (forall|
            i: int,
        |
            0 <= i < entries@.len() && #[trigger] is_last_record(entries@, i) ==> has_record(
                table@,
                entries@[i].part->0@,
            ))),
{
    if let Ok(entries) = refs {
        let table = r->Ok_0;
        let records = part_records(table@);
        part_table_is_ordered(entries@);
        assert forall|i: int, j: int| 0 <= i < j < table@.len() implies (
        #[trigger] table@[i]).part_number < (#[trigger] table@[j]).part_number by {
            assert(records[i].part_number < records[j].part_number);
        }
        assert forall|k: int| 0 <= k < table@.len() implies is_recorded(
            entries@,
            (#[trigger] table@[k])@,
        ) by {
            let q = table@[k]@;
            assert(records[k] == q);
            assert(part_table(entries@).contains(q));
            let i = choose|i: int|
                0 <= i < entries@.len() && recorded_part(#[trigger] entries@[i]) == Some(q);
            let name = entries@[i].name@;
            let stem = name.take(name.len() - ".ref"@.len());
            assert(name =~= stem + ".ref"@);
            lemma_record(entries@[i], stem);
            assert(is_record(entries@[i], stem));
        }
        assert forall|i: int| 0 <= i < entries@.len() && #[trigger] is_last_record(entries@, i) implies has_record(
        table@, entries@[i].part->0@) by {
            let stem = choose|stem: Seq<char>| #[trigger] is_record(entries@[i], stem);
            lemma_record(entries@[i], stem);
            let q = entries@[i].part->0@;
            assert forall|j: int| i < j < entries@.len() implies (recorded_part(
                #[trigger] entries@[j],
            ) matches Some(p) ==> p.part_number != q.part_number) by {
                if let Some(p) = recorded_part(entries@[j]) {
                    let name = entries@[j].name@;
                    let other = name.take(name.len() - ".ref"@.len());
                    assert(name =~= other + ".ref"@);
                    lemma_record(entries@[j], other);
                    assert(is_record(entries@[j], other));
                }
            }
            last_record_counts(entries@, q.part_number as int, i);
            let k = lemma_index(records, q.part_number as int);
            assert(table@[k]@ == q);
        }
    } else {
        let e = refs->Err_0;
        if e.kind == IoErrorKind::NotFound {
            assert(part_records(r->Ok_0@).len() == 0);
        }
    }
}

proof fn lemma_index(table: Seq<PartRefFileView>, n: int) -> (k: int)
    requires
        part_at(table, n) is Some,
    ensures
        0 <= k < table.len(),
        part_at(table, n) == Some(table[k]),
    decreases table.len(),
{
    if table.last().part_number == n {
        table.len() - 1
    } else {
        lemma_index(table.drop_last(), n)
    }
}

/// A file records this part.
pub open spec fn is_recorded(entries: Seq<RefEntry>, q: PartRefFileView) -> bool {
    exists|i: int, stem: Seq<char>|
        #![trigger is_record(entries[i], stem)]
        0 <= i < entries.len() && is_record(entries[i], stem) && entries[i].part->0@ == q
}

/// A file is a record, and none behind it is one for the same number.
pub open spec fn is_last_record(entries: Seq<RefEntry>, i: int) -> bool {
    &&& exists|stem: Seq<char>| #[trigger] is_record(entries[i], stem)
    &&& forall|j: int, stem: Seq<char>|
        #![trigger is_record(entries[j], stem)]
        i < j < entries.len() && is_record(entries[j], stem) ==> entries[j].part->0.part_number
            != entries[i].part->0.part_number
}

pub open spec fn has_record(table: Seq<PartRefFile>, q: PartRefFileView) -> bool {
    exists|k: int| 0 <= k < table.len() && (#[trigger] table[k])@ == q
}

/// A part is found by its number.
pub proof fn part_is_found_by_its_number(table: &Vec<PartRefFile>, n: i32, r: Option<usize>)
    requires
        call_ensures(find_part, (table, n), r),
    ensures
        r matches Some(i) ==> i < table@.len() && table@[i as int].part_number == n,
        r is None ==> forall|k: int|
            0 <= k < table@.len() ==> (#[trigger] table@[k]).part_number != n,
{
    let records = part_records(table@);
    if r is Some {
        let k = lemma_index(records, n as int);
        lemma_at_number(records, n as int);
    } else {
        assert forall|k: int| 0 <= k < table@.len() implies (#[trigger] table@[k]).part_number != n by {
            assert(records[k] == table@[k]@);
            lemma_none_at(records, n as int, k);
        }
    }
}

proof fn lemma_at_number(table: Seq<PartRefFileView>, n: int)
    ensures
        part_at(table, n) matches Some(p) ==> p.part_number == n,
    decreases table.len(),
{
    if table.len() > 0 && table.last().part_number != n {
        lemma_at_number(table.drop_last(), n);
    }
}

proof fn lemma_none_at(table: Seq<PartRefFileView>, n: int, k: int)
    requires
        part_at(table, n) is None,
        0 <= k < table.len(),
    ensures
        table[k].part_number != n,
    decreases table.len(),
{
    if k < table.len() - 1 {
        lemma_none_at(table.drop_last(), n, k);
    }
}

proof fn lemma_all_low(table: Seq<PartRefFileView>)
    requires
        forall|k: int| 0 <= k < table.len() ==> (#[trigger] table[k]).part_number <= i32::MAX,
    ensures
        low_parts(table) == table.len(),
        by_signed_number(table) == table,
{
    assert(low_parts(table) == table.len());
    assert(by_signed_number(table) =~= table);
}

/// The parts of the table are listed in its order: each with its number, its size, its quoted
/// digest and the time of its record.
pub proof fn recorded_parts_are_listed(
    listing: PartsListing,
    refs: Result<Vec<RefEntry>, IoError>,
    table: Vec<PartRefFile>,
    read: Result<(PartTimes, Plan), StorageError>,
    times: Vec<i64>,
    r: Plan,
)
    requires
        call_ensures(read_part_refs, (refs,), Ok::<Vec<PartRefFile>, StorageError>(table)),
        call_ensures(PartsListing::read, (listing, refs), read),
        read matches Ok(p) ==> call_ensures(PartTimes::times, (p.0, times), r),
        forall|k: int| 0 <= k < table@.len() ==> (#[trigger] table@[k]).part_number <= i32::MAX,
    ensures
        read matches Ok(p) && p.1@.len() == 1 && (p.1@[0] matches StepView::Ask {
            question: QuestionView::RefTimes { id, numbers },
        } && id == listing.upload_id@ && numbers.len() == table@.len() && forall|k: int|
            0 <= k < numbers.len() ==> #[trigger] numbers[k] == table@[k].part_number),
        exists|parts: Seq<PartInfoView>|
            answers_parts(r@, parts) && parts.len() == table@.len() && #[trigger] lists(
                parts,
                table@,
                times@,
            ),
{
    let records = part_records(table@);
    assert forall|k: int| 0 <= k < records.len() implies (#[trigger] records[k]).part_number
        <= i32::MAX by {
        assert(table@[k].part_number <= i32::MAX);
    }
    lemma_all_low(records);
    let parts = listed_parts(records, times@);
    let numbers = crate::cas::uploads::part_numbers(records);
    let p = read->Ok_0;
    assert(p.1@[0] == (StepView::Ask {
        question: QuestionView::RefTimes { id: listing.upload_id@, numbers },
    }));
    assert forall|k: int| 0 <= k < numbers.len() implies #[trigger] numbers[k]
        == table@[k].part_number by {}
    assert(answers_parts(r@, parts));
    assert forall|k: int| 0 <= k < parts.len() implies is_listed_as(
        #[trigger] parts[k],
        table@[k],
        times@,
        k,
    ) by {
        assert(records[k] == table@[k]@);
        assert(table@[k].part_number <= i32::MAX);
    }
    assert(lists(parts, table@, times@));
}

pub open spec fn lists(
    parts: Seq<PartInfoView>,
    table: Seq<PartRefFile>,
    times: Seq<i64>,
) -> bool {
    forall|k: int| 0 <= k < parts.len() ==> is_listed_as(#[trigger] parts[k], table[k], times, k)
}

pub open spec fn is_listed_as(
    part: PartInfoView,
    record: PartRefFile,
    times: Seq<i64>,
    k: int,
) -> bool {
    &&& part.part_number == record.part_number
    &&& record.size <= i64::MAX ==> part.size == record.size
    &&& part.etag == seq!['"'] + record.md5_hex@ + seq!['"']
    &&& k < times.len() ==> part.last_modified_unix == times[k]
    &&& k >= times.len() ==> part.last_modified_unix == 0
}

/// Giving up an upload removes the blob of each of its parts and its directory. A directory that is
/// gone already is as good as removed.
pub proof fn abort_removes_the_upload(
    a: Aborting,
    refs: Result<Vec<RefEntry>, IoError>,
    table: Vec<PartRefFile>,
    r: Plan,
)
    requires
        call_ensures(Aborting::remove, (a, refs), r),
        call_ensures(read_part_refs, (refs,), Ok::<Vec<PartRefFile>, StorageError>(table)),
    ensures
        r@.last() == (StepView::Finish { outcome: OutcomeView::Nothing }),
        r@.contains(
            StepView::Do {
                call: CallView::RemoveDirAll { at: Place::Upload { id: a.upload_id@ } },
                rule: Rule {
                    count: None,
                    missing_ok: true,
                    on_error: OnError::Fail(Report::Io),
                    if_clean: false,
                },
            },
        ),
        forall|i: int|
            0 <= i < table@.len() && is_canonical_uuid((#[trigger] table@[i]).blob_id@)
                ==> r@.contains(
                StepView::Do {
                    call: CallView::RemoveFile { at: Place::Blob { id: table@[i].blob_id@ } },
                    rule: may(),
                },
            ),
{
    let records = part_records(table@);
    let blobs = table_blobs(records);
    let gone = reclaim_steps(blobs, may());
    lemma_reclaimed(blobs, may());
    let n = gone.len() as int;
    assert(r@[n] == (StepView::Do {
        call: CallView::RemoveDirAll { at: Place::Upload { id: a.upload_id@ } },
        rule: Rule {
            count: None,
            missing_ok: true,
            on_error: OnError::Fail(Report::Io),
            if_clean: false,
        },
    }));
    assert forall|i: int| 0 <= i < table@.len() && is_canonical_uuid((#[trigger] table@[i]).blob_id@) implies r@.contains(
    StepView::Do {
        call: CallView::RemoveFile { at: Place::Blob { id: table@[i].blob_id@ } },
        rule: may(),
    }) by {
        assert(records[i] == table@[i]@);
        assert(blobs[i] == table@[i].blob_id@);
        let step = StepView::Do {
            call: CallView::RemoveFile { at: Place::Blob { id: table@[i].blob_id@ } },
            rule: may(),
        };
        let k = gone.index_of(step);
        assert(r@[k] == step);
    }
}

/// The blobs of a table are those of its records, in their order.
pub proof fn table_names_its_blobs(table: &Vec<PartRefFile>, r: Vec<String>)
    requires
        call_ensures(blobs_of_parts, (table,), r),
    ensures
        r@.len() == table@.len(),
        forall|i: int| 0 <= i < r@.len() ==> (#[trigger] r@[i])@ == table@[i].blob_id@,
{
    assert(texts(r@).len() == table@.len());
    assert forall|i: int| 0 <= i < r@.len() implies (#[trigger] r@[i])@ == table@[i].blob_id@ by {
        assert(texts(r@)[i] == table_blobs(part_records(table@))[i]);
        assert(part_records(table@)[i] == table@[i]@);
    }
}

/// An upload in progress: a directory with a record that can be understood, and no mark that it was
/// completed.
pub open spec fn in_progress(entry: Result<UploadDir, IoError>) -> bool {
    entry matches Ok(d) && d.is_dir && !d.completed && d.upload is Some
}

pub open spec fn less(a: Seq<char>, b: Seq<char>) -> bool {
    exists|i: int| #[trigger] is_less_at(encode_utf8(a), encode_utf8(b), i)
}

/// An upload is listed before another by its key, and by its id where the keys are the same.
pub open spec fn precedes(a: MultipartUploadView, b: MultipartUploadView) -> bool {
    less(a.key, b.key) || (a.key == b.key && less(a.upload_id, b.upload_id))
}

proof fn lemma_precedes(a: MultipartUploadView, b: MultipartUploadView)
    ensures
        precedes(a, b) <==> upload_before(a, b),
{
    lemma_less_at(encode_utf8(a.key), encode_utf8(b.key));
    lemma_less_at(encode_utf8(a.upload_id), encode_utf8(b.upload_id));
}

proof fn lemma_scanned(entries: Seq<Result<UploadDir, IoError>>, left: int)
    requires
        forall|i: int| 0 <= i < entries.len() ==> #[trigger] entries[i] is Ok,
    ensures
        scanned_uploads(entries, left) is Ok,
        forall|u: MultipartUploadView|
            #[trigger] scanned_uploads(entries, left)->Ok_0.0.contains(u) ==> is_one_of(entries, u),
        entries.len() <= left ==> !scanned_uploads(entries, left)->Ok_0.1,
        entries.len() <= left ==> forall|i: int|
            0 <= i < entries.len() && in_progress(#[trigger] entries[i]) ==> scanned_uploads(
                entries,
                left,
            )->Ok_0.0.contains(entries[i]->Ok_0.upload->0@),
    decreases entries.len(),
{
    if entries.len() > 0 {
        let rest = entries.skip(1);
        assert forall|i: int| 0 <= i < rest.len() implies #[trigger] rest[i] is Ok by {
            assert(entries[i + 1] is Ok);
        }
        assert(entries[0] is Ok);
        let d = entries[0]->Ok_0;
        let after = if d.is_dir {
            left - 1
        } else {
            left
        };
        if !(d.is_dir && left <= 0) {
            lemma_scanned(rest, after);
            let all = scanned_uploads(entries, left)->Ok_0.0;
            let later = scanned_uploads(rest, after)->Ok_0.0;
            assert forall|u: MultipartUploadView| #[trigger] all.contains(u) implies is_one_of(
                entries,
                u,
            ) by {
                let k = all.index_of(u);
                if in_progress(entries[0]) && k == 0 {
                    assert(entries[0]->Ok_0.upload->0@ == u);
                } else {
                    assert(later.contains(u)) by {
                        if in_progress(entries[0]) {
                            assert(later[k - 1] == u);
                        } else {
                            assert(later[k] == u);
                        }
                    }
                    assert(is_one_of(rest, u));
                    let i = choose|i: int|
                        0 <= i < rest.len() && in_progress(#[trigger] rest[i])
                            && rest[i]->Ok_0.upload->0@ == u;
                    assert(entries[i + 1] == rest[i]);
                }
            }
            if entries.len() <= left {
                assert forall|i: int| 0 <= i < entries.len() && in_progress(#[trigger] entries[i]) implies all.contains(
                entries[i]->Ok_0.upload->0@) by {
                    let u = entries[i]->Ok_0.upload->0@;
                    if i == 0 {
                        assert(all[0] == u);
                    } else {
                        assert(rest[i - 1] == entries[i]);
                        let k = later.index_of(u);
                        if in_progress(entries[0]) {
                            assert(all[k + 1] == u);
                        } else {
                            assert(all[k] == u);
                        }
                    }
                }
            }
        }
    }
}

pub open spec fn is_one_of(entries: Seq<Result<UploadDir, IoError>>, u: MultipartUploadView) -> bool {
    exists|i: int|
        0 <= i < entries.len() && in_progress(#[trigger] entries[i]) && entries[i]->Ok_0.upload->0@
            == u
}

/// The plan does nothing but answer with these uploads.
pub open spec fn answers_uploads(
    steps: Seq<StepView>,
    uploads: Seq<MultipartUploadView>,
    truncated: bool,
) -> bool {
    steps == seq![StepView::Finish { outcome: OutcomeView::Uploads { uploads, truncated } }]
}

/// The list of uploads: in order, only uploads in progress, and at most as many as were asked for.
/// Where no more than 4000 entries are there, the list is cut exactly where it would be longer than
/// that, and what is left out comes later in the order.
pub proof fn uploads_in_progress_are_listed(
    listing: UploadsListing,
    entries: Vec<Result<UploadDir, IoError>>,
    r: Result<Plan, StorageError>,
)
    requires
        call_ensures(
            UploadsListing::scanned,
            (listing, Ok::<Vec<Result<UploadDir, IoError>>, IoError>(entries)),
            r,
        ),
        forall|i: int| 0 <= i < entries@.len() ==> #[trigger] entries@[i] is Ok,
    ensures
        r matches Ok(plan) && exists|uploads: Seq<MultipartUploadView>, truncated: bool|
            #[trigger] answers_uploads(plan@, uploads, truncated) && is_upload_page(
                uploads,
                truncated,
                entries@,
                listing.cap as int,
            ),
{
    broadcast use vstd::seq_lib::group_to_multiset_ensures;

    let scan = scanned_uploads(entries@, 4000);
    lemma_scanned(entries@, 4000);
    let found = scan->Ok_0.0;
    let all = ordered_uploads(found);
    uploads_come_out_in_order(found);
    let cap = listing.cap as int;
    let uploads = if all.len() > cap {
        all.take(cap)
    } else {
        all
    };
    let truncated = scan->Ok_0.1 || all.len() > cap;
    let plan = r->Ok_0;
    assert(answers_uploads(plan@, uploads, truncated));
    assert forall|i: int, j: int| 0 <= i < j < uploads.len() implies !precedes(
        #[trigger] uploads[j],
        #[trigger] uploads[i],
    ) by {
        assert(uploads[i] == all[i] && uploads[j] == all[j]);
        lemma_precedes(uploads[j], uploads[i]);
    }
    assert forall|u: MultipartUploadView| all.contains(u) <==> found.contains(u) by {
        assert(all.to_multiset().count(u) == found.to_multiset().count(u));
        assert(found.contains(u) <==> found.to_multiset().count(u) > 0);
        assert(all.contains(u) <==> all.to_multiset().count(u) > 0);
    }
    assert forall|i: int| 0 <= i < uploads.len() implies is_one_of(entries@, #[trigger] uploads[i]) by {
        assert(uploads[i] == all[i]);
        assert(all.contains(all[i]));
        assert(found.contains(all[i]));
    }
    if entries@.len() <= 4000 {
        assert forall|i: int, k: int|
            0 <= i < entries@.len() && in_progress(#[trigger] entries@[i]) && 0 <= k < uploads.len() && !uploads.contains(
                entries@[i]->Ok_0.upload->0@,
            ) implies !precedes(entries@[i]->Ok_0.upload->0@, #[trigger] uploads[k]) by {
            let u = entries@[i]->Ok_0.upload->0@;
            assert(found.contains(u));
            assert(all.contains(u));
            let j = all.index_of(u);
            assert(j >= uploads.len()) by {
                if j < uploads.len() {
                    assert(uploads[j] == u);
                }
            }
            assert(uploads[k] == all[k]);
            assert(!upload_before(all[j], all[k]));
            lemma_precedes(u, uploads[k]);
        }
        if !truncated {
            assert forall|i: int| 0 <= i < entries@.len() && in_progress(#[trigger] entries@[i]) implies uploads.contains(
            entries@[i]->Ok_0.upload->0@) by {
                assert(found.contains(entries@[i]->Ok_0.upload->0@));
            }
        }
    }
}

pub open spec fn is_upload_page(
    uploads: Seq<MultipartUploadView>,
    truncated: bool,
    entries: Seq<Result<UploadDir, IoError>>,
    cap: int,
) -> bool {
    &&& uploads.len() <= cap
    &&& forall|i: int, j: int|
        0 <= i < j < uploads.len() ==> !precedes(#[trigger] uploads[j], #[trigger] uploads[i])
    &&& forall|i: int| 0 <= i < uploads.len() ==> is_one_of(entries, #[trigger] uploads[i])
    &&& entries.len() <= 4000 ==> {
        &&& truncated ==> uploads.len() == cap
        &&& !truncated ==> forall|i: int|
            0 <= i < entries.len() && in_progress(#[trigger] entries[i]) ==> uploads.contains(
                entries[i]->Ok_0.upload->0@,
            )
        &&& forall|i: int, k: int|
            0 <= i < entries.len() && in_progress(#[trigger] entries[i]) && 0 <= k < uploads.len()
                && !uploads.contains(entries[i]->Ok_0.upload->0@) ==> !precedes(
                entries[i]->Ok_0.upload->0@,
                #[trigger] uploads[k],
            )
    }
}

/// A list of uploads has at most 1000 of them, whatever was asked for. The upload area is scanned
/// for at most 4000. An upload area that is not there has no uploads.
pub proof fn list_of_uploads_has_its_limits(
    store: &CasStore,
    bucket: &str,
    max: usize,
    name: Result<(), StorageError>,
    opened: (UploadsListing, Plan),
    e: IoError,
    r: Result<Plan, StorageError>,
)
    requires
        call_ensures(CasStore::list_multipart_uploads, (store, bucket, max), opened),
        call_ensures(validate_bucket_component, (bucket,), name),
        call_ensures(
            UploadsListing::scanned,
            (opened.0, Err::<Vec<Result<UploadDir, IoError>>, IoError>(e)),
            r,
        ),
    ensures
        max <= 1000 ==> opened.0.cap == max,
        max > 1000 ==> opened.0.cap == 1000,
        name is Err ==> opened.1@ == seq![StepView::Fail { error: StorageError::PathTraversal }],
        name is Ok ==> opened.1@ == seq![
            StepView::Do {
                call: CallView::CheckDir { at: Place::Bucket },
                rule: must(Report::NoBucket),
            },
            StepView::Ask { question: QuestionView::ScanUploads { limit: 4000 } },
        ],
        e.kind == IoErrorKind::NotFound ==> (r matches Ok(plan) && answers_uploads(
            plan@,
            Seq::empty(),
            false,
        )),
        e.kind != IoErrorKind::NotFound ==> r == Err::<Plan, StorageError>(StorageError::Io(e)),
{
}

} // verus!
