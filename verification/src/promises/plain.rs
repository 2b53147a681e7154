//! Objects in the plain layout: what is stored, what is answered, and what is listed.

use vstd::prelude::*;
use crate::cas::browse::lemma_strict;
use crate::cas::complete::unquoted;
use crate::cas::store::Env;
use crate::filesystem::objects::{
    delete_steps, file_line, hides_files, info_at, info_views, infos_at, is_hidden_dir,
    is_object_file, object_files, plain_head_answer, plain_page, prune_steps, put_metadata,
    put_steps, sidecar_steps, PlainBrowsing, PlainFilling, PlainOpen, PlainPut, PlainRead,
};
use crate::filesystem::store::{
    object_depth, to_plain_error, validate_object_path, Filesystem, GetObjectResult,
    ListObjectsInput,
};
use crate::filesystem::uploads::{
    complete_metadata, complete_steps, numbers_ascend, store_steps, tag_fits, PlainAssembling,
    PlainCompleting,
};
use crate::listing::{all_lines, apart, first_lines, groups_of, objects_of};
use crate::metadata::{part_refs, ObjectMetadata, ObjectMetadataView, PartRefView};
use crate::numbers::{decimal, part_stem};
use crate::outside::{hex_text, md5_of};
use crate::path::{join_path, path_inner_components};
use crate::plan::call::{
    BodyDigest, CallView, FileDescription, OutcomeView, PlainPart, QuestionView, Report,
};
use crate::plan::place::{locate, Place};
use crate::plan::runner::{may, must, OnError, Plan, Rule, StepView};
use crate::promises::claims::{
    is_inner_text, lemma_is_inner, lemma_unquoted_back, lemma_unquoted_front,
};
use crate::promises::listing::{
    is_common_prefix, is_listed_alone, is_page, lemma_grouping, lemma_page, occurs_at,
};
use crate::promises::names::{is_segment, lemma_piece_is_segment, lemma_segment_is_piece};
use crate::reader::{sizes_from, ByteRange};
use crate::sorting::{in_text_order, lemma_in_text_order, lemma_text_set, text_set};
use crate::text::{has_text, lemma_split_pieces, split, stands_at, texts};
use crate::types::{
    pairs, BodySourceView, CompletePart, IoError, IoErrorKind, ListObjectsView, MultipartUpload,
    ObjectInfoView, StorageError,
};

verus! {

/// The sidecar of an object that was put whole.
pub open spec fn is_put_sidecar(
    content_type: Seq<char>,
    user_metadata: Seq<(Seq<char>, Seq<char>)>,
    now: i64,
    body: BodyDigest,
    m: ObjectMetadataView,
) -> bool {
    &&& content_type.len() > 0 ==> m.content_type == content_type
    &&& content_type.len() == 0 ==> m.content_type == "application/octet-stream"@
    &&& body.size <= i64::MAX ==> m.content_length == body.size
    &&& m.etag == seq!['"'] + hex_text(body.digest@) + seq!['"']
    &&& m.last_modified == now
    &&& m.user_metadata == user_metadata
    &&& m.content_disposition.len() == 0
    &&& m.content_encoding.len() == 0
    &&& m.cache_control.len() == 0
    &&& m.multipart is None
}

/// The sidecar is written aside and moved next to the data file.
pub open spec fn puts_sidecar(steps: Seq<StepView>, key: Seq<char>, m: ObjectMetadataView) -> bool {
    exists|tmp: Seq<char>|
        steps.contains(#[trigger] writes_sidecar(key, tmp, m)) && steps.contains(
            StepView::Do {
                call: CallView::Rename {
                    src: Place::ObjectSide { key, suffix: tmp },
                    dst: Place::ObjectSide { key, suffix: ".s3meta"@ },
                },
                rule: must(Report::Io),
            },
        )
}

pub open spec fn writes_sidecar(key: Seq<char>, tmp: Seq<char>, metadata: ObjectMetadataView) -> StepView {
    StepView::Do {
        call: CallView::WriteMetadata {
            at: Place::ObjectSide { key, suffix: tmp },
            metadata,
            sync: false,
        },
        rule: must(Report::Io),
    }
}

proof fn lemma_sidecar(steps: Seq<StepView>, at: int, key: Seq<char>, m: ObjectMetadataView)
    requires
        0 <= at,
        at + sidecar_steps(key, m).len() <= steps.len(),
        forall|k: int|
            0 <= k < sidecar_steps(key, m).len() ==> steps[at + k] == #[trigger] sidecar_steps(
                key,
                m,
            )[k],
    ensures
        puts_sidecar(steps, key, m),
{
    let tmp = ".s3meta.tmp"@;
    let own = sidecar_steps(key, m);
    assert(own[0] == writes_sidecar(key, tmp, m));
    assert(own[2] is Do);
    assert(steps[at] == own[0]);
    assert(steps[at + 2] == own[2]);
}

/// An object is put under its key with a sidecar that has its type, its metadata, the length and
/// the digest of its body and the time of the request. The parts of an older version are removed,
/// and the quoted digest is answered.
pub proof fn put_stores_its_sidecar(
    fs: &Filesystem,
    bucket: &str,
    key: &str,
    content_type: &str,
    user_metadata: Vec<(String, String)>,
    tmp: String,
    now: i64,
    opened: (PlainPut, Plan),
    body: BodyDigest,
    r: Result<Plan, StorageError>,
)
    requires
        call_ensures(
            Filesystem::put_object,
            (fs, bucket, key, content_type, user_metadata, tmp, now),
            opened,
        ),
        call_ensures(PlainPut::streamed, (opened.0, Ok::<BodyDigest, IoError>(body)), r),
    ensures
        r matches Ok(plan) && plan@.last() == (StepView::Finish {
            outcome: OutcomeView::Etag {
                etag: seq!['"'] + hex_text(body.digest@) + seq!['"'],
            },
        }) && plan@.contains(
            StepView::Do {
                call: CallView::Rename {
                    src: Place::ObjectSide { key: key@, suffix: ".tmp."@ + tmp@ },
                    dst: Place::Object { key: key@ },
                },
                rule: must(Report::Io),
            },
        ) && plan@.contains(
            StepView::Do {
                call: CallView::RemoveDirAll {
                    at: Place::ObjectSide { key: key@, suffix: ".parts"@ },
                },
                rule: may(),
            },
        ) && exists|m: ObjectMetadataView|
            is_put_sidecar(content_type@, pairs(user_metadata@), now, body, m)
                && #[trigger] puts_sidecar(plan@, key@, m),
{
    let put = opened.0;
    let m = put_metadata(put, seq!['"'] + hex_text(body.digest@) + seq!['"'], body.size);
    let plan = r->Ok_0@;
    let side = sidecar_steps(key@, m);
    assert(plan == put_steps(key@, tmp@, m));
    assert(plan[0] is Do);
    assert(plan[plan.len() - 2] is Do);
    assert forall|k: int| 0 <= k < side.len() implies plan[2 + k] == #[trigger] side[k] by {}
    lemma_sidecar(plan, 2, key@, m);
}

/// A body that could not be written is reported as what it is.
pub proof fn plain_put_reports_a_broken_body(put: PlainPut, e: IoError, r: Result<Plan, StorageError>)
    requires
        call_ensures(PlainPut::streamed, (put, Err::<BodyDigest, IoError>(e)), r),
    ensures
        r == Err::<Plan, StorageError>(StorageError::Io(e)),
{
}

/// The requests for one object begin with the check of its names. A read goes for the sidecar, a
/// put has its body written next to the data file, and looks for the bucket first.
pub proof fn plain_requests_check_the_names(
    fs: &Filesystem,
    bucket: &str,
    key: &str,
    content_type: &str,
    user_metadata: Vec<(String, String)>,
    tmp: String,
    now: i64,
    range: Option<ByteRange>,
    names: Result<(), StorageError>,
    put: (PlainPut, Plan),
    get: (PlainRead, Plan),
    head: Plan,
    delete: Plan,
)
    requires
        call_ensures(validate_object_path, (bucket, key), names),
        call_ensures(
            Filesystem::put_object,
            (fs, bucket, key, content_type, user_metadata, tmp, now),
            put,
        ),
        call_ensures(Filesystem::get_object, (fs, bucket, key, range), get),
        call_ensures(Filesystem::head_object, (fs, bucket, key), head),
        call_ensures(Filesystem::delete_object, (fs, bucket, key), delete),
    ensures
        names is Err ==> ({
            let refused = seq![StepView::Fail { error: StorageError::PathTraversal }];
            put.1@ == refused && get.1@ == refused && head@ == refused && delete@ == refused
        }),
        names is Ok ==> ({
            let read = seq![
                StepView::Ask {
                    question: QuestionView::ReadMetadata {
                        at: Place::ObjectSide { key: key@, suffix: ".s3meta"@ },
                    },
                },
            ];
            &&& get.1@ == read
            &&& head@ == read
            &&& put.1@[0] == (StepView::Do {
                call: CallView::CheckLinkedDir { at: Place::Bucket },
                rule: must(Report::NoBucket),
            })
            &&& put.1@.last() == (StepView::Ask {
                question: QuestionView::StreamFile {
                    at: Place::ObjectSide { key: key@, suffix: ".tmp."@ + tmp@ },
                },
            })
        }),
        get.0.key@ == key@,
        get.0.range == range,
{
}

/// Deleting an object removes its data file, its sidecar and its parts, and then directories only.
/// It succeeds whether or not they are there.
pub proof fn plain_delete_removes_the_files(
    fs: &Filesystem,
    bucket: &str,
    key: &str,
    names: Result<(), StorageError>,
    comps: Vec<String>,
    r: Plan,
)
    requires
        call_ensures(validate_object_path, (bucket, key), names),
        call_ensures(Filesystem::delete_object, (fs, bucket, key), r),
        call_ensures(path_inner_components, (key,), comps),
        names is Ok,
    ensures
        r@.len() == (if comps@.len() == 0 {
            4
        } else {
            3 + comps@.len()
        }),
        r@[0] == (StepView::Do {
            call: CallView::RemoveFile { at: Place::Object { key: key@ } },
            rule: may(),
        }),
        r@[1] == (StepView::Do {
            call: CallView::RemoveFile {
                at: Place::ObjectSide { key: key@, suffix: ".s3meta"@ },
            },
            rule: may(),
        }),
        r@[2] == (StepView::Do {
            call: CallView::RemoveDirAll { at: Place::ObjectSide { key: key@, suffix: ".parts"@ } },
            rule: may(),
        }),
        forall|k: int|
            3 <= k < r@.len() - 1 ==> #[trigger] r@[k] == clears_away(key@, r@.len() - 1 - k),
        r@.last() == (StepView::Finish { outcome: OutcomeView::Nothing }),
{
    assert(texts(comps@).len() == comps@.len());
    let prune = prune_steps(key@, object_depth(key@));
    lemma_prune(key@, object_depth(key@));
    assert(r@ == delete_steps(key@));
    assert forall|k: int| 3 <= k < r@.len() - 1 implies #[trigger] r@[k] == clears_away(
        key@,
        r@.len() - 1 - k,
    ) by {
        assert(r@[k] == prune[k - 3]);
    }
}

/// The step that removes a directory above a data file, unless one below it was left.
pub open spec fn clears_away(key: Seq<char>, depth: int) -> StepView {
    StepView::Do {
        call: CallView::RemoveDir { at: Place::ObjectDir { key, depth: depth as usize } },
        rule: Rule { count: None, missing_ok: false, on_error: OnError::Taint, if_clean: true },
    }
}

proof fn lemma_prune(key: Seq<char>, depth: int)
    ensures
        prune_steps(key, depth).len() == (if depth > 0 {
            depth
        } else {
            0
        }),
        forall|k: int|
            0 <= k < prune_steps(key, depth).len() ==> #[trigger] prune_steps(key, depth)[k]
                == clears_away(key, depth - k),
    decreases depth,
{
    if depth > 0 {
        lemma_prune(key, depth - 1);
        let all = prune_steps(key, depth);
        let rest = prune_steps(key, depth - 1);
        assert forall|k: int| 0 <= k < all.len() implies #[trigger] all[k] == clears_away(
            key,
            depth - k,
        ) by {
            if k > 0 {
                assert(all[k] == rest[k - 1]);
            }
        }
    }
}

/// An object that has no sidecar is not there: a missing bucket is reported first.
pub open spec fn reports_missing(steps: Seq<StepView>) -> bool {
    steps == seq![
        StepView::Do {
            call: CallView::CheckLinkedDir { at: Place::Bucket },
            rule: must(Report::NoBucket),
        },
        StepView::Fail { error: StorageError::ObjectNotFound },
    ]
}

/// A request for headers is answered with the sidecar as it is.
pub proof fn plain_head_shows_the_sidecar(
    result: Result<ObjectMetadata, IoError>,
    r: Result<Plan, StorageError>,
)
    requires
        call_ensures(plain_head_answer, (result,), r),
    ensures
        result matches Ok(m) ==> (r matches Ok(plan) && plan@ == seq![
            StepView::Finish { outcome: OutcomeView::Headers { metadata: m@ } },
        ]),
        result is Err && result->Err_0.kind == IoErrorKind::NotFound ==> (r matches Ok(plan)
            && reports_missing(plan@)),
        result is Err && result->Err_0.kind != IoErrorKind::NotFound ==> r == Err::<
            Plan,
            StorageError,
        >(StorageError::Io(result->Err_0)),
{
}

/// The first sum is 0, and each further one is the one before it and one more size.
pub open spec fn are_part_sums(parts: Seq<PartRefView>, sums: Seq<int>) -> bool {
    &&& sums.len() == parts.len() + 1
    &&& sums[0] == 0
    &&& forall|i: int|
        #![trigger parts[i]]
        0 <= i < parts.len() ==> sums[i + 1] == sums[i] + parts[i].size
}

proof fn lemma_part_sums(parts: Seq<PartRefView>, sums: Seq<int>, i: int)
    requires
        are_part_sums(parts, sums),
        0 <= i <= parts.len(),
    ensures
        sums[parts.len() as int] == sums[i] + sizes_from(parts, i),
    decreases parts.len() - i,
{
    if i < parts.len() {
        let p = parts[i];
        lemma_part_sums(parts, sums, i + 1);
    }
}

/// A read of an object with parts is answered from its parts, in their order, and its length is the
/// sum of theirs. Any other object is answered from its data file. The range is the one of the
/// request.
pub proof fn plain_read_follows_the_sidecar(
    read: PlainRead,
    m: ObjectMetadata,
    sums: Seq<int>,
    r: Result<(Option<PlainOpen>, Plan), StorageError>,
)
    requires
        call_ensures(PlainRead::found, (read, Ok::<ObjectMetadata, IoError>(m)), r),
        m@.multipart matches Some(parts) ==> are_part_sums(parts, sums),
    ensures
        m@.multipart is None ==> (r matches Ok((Some(o), plan)) && o.key == read.key && o.metadata
            == m && o.range == read.range && plan@ == seq![
            StepView::Ask {
                question: QuestionView::OpenFile { at: Place::Object { key: read.key@ } },
            },
        ]),
        m@.multipart matches Some(parts) ==> (if sums.last() <= u64::MAX {
            r matches Ok((None, plan)) && plan@.len() == 1 && (plan@[0] matches StepView::Finish {
                outcome: OutcomeView::Object { object },
            } && object.metadata == m@ && object.body == (BodySourceView::Parts { parts })
                && object.resolved_range == read.range && object.total_size == sums.last())
        } else {
            r matches Err(StorageError::Io(e)) && e.kind == IoErrorKind::InvalidData
        }),
{
    if let Some(parts) = m@.multipart {
        lemma_part_sums(parts, sums, 0);
        crate::reader::lemma_sizes_suffix(parts, 0);
    }
}

/// A read of an object without a sidecar.
pub proof fn plain_read_of_a_missing_object(
    read: PlainRead,
    e: IoError,
    r: Result<(Option<PlainOpen>, Plan), StorageError>,
)
    requires
        call_ensures(PlainRead::found, (read, Err::<ObjectMetadata, IoError>(e)), r),
    ensures
        e.kind == IoErrorKind::NotFound ==> (r matches Ok((None, plan)) && reports_missing(plan@)),
        e.kind != IoErrorKind::NotFound ==> r == Err::<(Option<PlainOpen>, Plan), StorageError>(
            StorageError::Io(e),
        ),
{
}

/// The data file of an object is answered with its sidecar, its range and the length that the
/// sidecar has.
pub proof fn plain_data_file_is_answered(
    o: PlainOpen,
    env: &Env,
    size: Result<u64, IoError>,
    r: Result<Plan, StorageError>,
    root: &str,
    bucket: &str,
    key: &str,
    base: String,
    below: &str,
    path: String,
)
    requires
        call_ensures(PlainOpen::opened, (o, env, size), r),
        root@ == env.root@,
        bucket@ == env.bucket@,
        key@ == o.key@,
        call_ensures(join_path, (root, bucket), base),
        below@ == base@,
        call_ensures(join_path, (below, key), path),
    ensures
        size matches Ok(n) ==> (r matches Ok(plan) && plan@.len() == 1 && (
        plan@[0] matches StepView::Finish { outcome: OutcomeView::Object { object } }
            && object.metadata == o.metadata@ && object.body == (BodySourceView::Single {
            path: path@,
            size: n,
        }) && object.resolved_range == o.range && (o.metadata.content_length >= 0
            ==> object.total_size == o.metadata.content_length))),
        size is Err && size->Err_0.kind == IoErrorKind::NotFound ==> (r matches Ok(plan)
            && reports_missing(plan@)),
        size is Err && size->Err_0.kind != IoErrorKind::NotFound ==> r == Err::<Plan, StorageError>(
            StorageError::Io(size->Err_0),
        ),
{
}

/// The answer of a task is handed on as it is.
pub proof fn answer_is_handed_on(object: crate::types::GetObjectResult, r: GetObjectResult)
    requires
        call_ensures(GetObjectResult::from_answer, (object,), r),
    ensures
        r.metadata == object.metadata,
        r.body == object.body,
        r.range == object.resolved_range,
        r.total_size == object.total_size,
{
}

/// The errors of the plain layout: each has the name it has elsewhere.
pub proof fn plain_errors_keep_their_names(
    e: StorageError,
    r: crate::filesystem::store::StorageError,
)
    requires
        call_ensures(to_plain_error, (e,), r),
    ensures
        e is BucketNotFound <==> r is BucketNotFound,
        e is BucketNotEmpty <==> r is BucketNotEmpty,
        e is BucketExists <==> r is BucketExists,
        e is ObjectNotFound <==> r is ObjectNotFound,
        e is InvalidBucket <==> r is InvalidBucket,
        e is PathTraversal <==> r is PathTraversal,
        e is NoSuchUpload <==> r is NoSuchUpload,
        e is InvalidPartOrder <==> r is InvalidPartOrder,
        e is InvalidPart <==> r is InvalidPart,
        e matches StorageError::Io(cause) ==> r == crate::filesystem::store::StorageError::Io(cause),
        e matches StorageError::CommitNotDurable(cause) ==> r
            == crate::filesystem::store::StorageError::Io(cause),
{
}

/// Every number is above all numbers before it. There may be gaps.
pub open spec fn claimed_numbers_grow(parts: Seq<CompletePart>) -> bool {
    forall|i: int, j: int|
        0 <= i < j < parts.len() ==> (#[trigger] parts[i]).part_number < (
        #[trigger] parts[j]).part_number
}

proof fn lemma_numbers_grow(parts: Seq<CompletePart>)
    ensures
        numbers_ascend(parts) <==> claimed_numbers_grow(parts),
{
    if claimed_numbers_grow(parts) {
        assert forall|i: int| 0 < i < parts.len() implies (#[trigger] parts[i]).part_number
            > parts[i - 1].part_number by {}
    }
    if numbers_ascend(parts) {
        assert forall|i: int, j: int| 0 <= i < j < parts.len() implies (
        #[trigger] parts[i]).part_number < (#[trigger] parts[j]).part_number by {
            lemma_one_above(parts, i, j);
        }
    }
}

proof fn lemma_one_above(parts: Seq<CompletePart>, i: int, j: int)
    requires
        0 <= i < j < parts.len(),
        numbers_ascend(parts),
    ensures
        parts[i].part_number < parts[j].part_number,
    decreases j - i,
{
    assert(parts[j].part_number > parts[j - 1].part_number);
    if i < j - 1 {
        lemma_one_above(parts, i, j - 1);
    }
}

/// A completion goes on where the upload is there, its names are accepted, and the claimed numbers
/// ascend, with or without gaps.
pub proof fn plain_completion_needs_ascending_numbers(
    c: PlainCompleting,
    record: Result<MultipartUpload, IoError>,
    bucket: &str,
    key: &str,
    names: Result<(), StorageError>,
    r: Result<(PlainAssembling, Plan), StorageError>,
)
    requires
        call_ensures(PlainCompleting::found, (c, record), r),
        record matches Ok(u) ==> bucket@ == u.bucket@ && key@ == u.key@,
        call_ensures(validate_object_path, (bucket, key), names),
    ensures
        record is Err && record->Err_0.kind == IoErrorKind::NotFound ==> r == Err::<
            (PlainAssembling, Plan),
            StorageError,
        >(StorageError::NoSuchUpload),
        record is Err && record->Err_0.kind != IoErrorKind::NotFound ==> r == Err::<
            (PlainAssembling, Plan),
            StorageError,
        >(StorageError::Io(record->Err_0)),
        record is Ok && names is Err ==> r == Err::<(PlainAssembling, Plan), StorageError>(
            StorageError::PathTraversal,
        ),
        record is Ok && names is Ok && !claimed_numbers_grow(c.parts@) ==> r == Err::<
            (PlainAssembling, Plan),
            StorageError,
        >(StorageError::InvalidPartOrder),
        record is Ok && names is Ok && claimed_numbers_grow(c.parts@) ==> r is Ok,
{
    lemma_numbers_grow(c.parts@);
    if record is Ok {
        let good = crate::types::is_bucket_name(bucket@) && crate::filesystem::store::is_plain_key(
            key@,
        );
        assert(good <==> names is Ok);
    }
}

/// A completion that goes on looks for the bucket and then at the first claimed part.
pub proof fn plain_completion_begins_with_the_first_part(
    c: PlainCompleting,
    upload: MultipartUpload,
    stem: String,
    r: Result<(PlainAssembling, Plan), StorageError>,
)
    requires
        call_ensures(PlainCompleting::found, (c, Ok::<MultipartUpload, IoError>(upload)), r),
        r is Ok,
        c.parts@.len() > 0,
        call_ensures(part_stem, (c.parts@[0].part_number,), stem),
    ensures
        r matches Ok((a, plan)) && a.upload == upload && a.upload_id == c.upload_id && a.parts
            == c.parts && a.now == c.now && a.found@.len() == 0 && a.digests@.len() == 0 && a.total
            == 0 && plan@ == seq![
            StepView::Do {
                call: CallView::CheckLinkedDir { at: Place::Bucket },
                rule: must(Report::NoBucket),
            },
            StepView::Ask {
                question: QuestionView::ProbePlainPart {
                    at: Place::PlainPart { id: c.upload_id@, name: stem@ },
                },
            },
        ],
{
    lemma_first_asked(upload@, c.upload_id@, c.parts@, c.now);
    let plan = r->Ok_0.1;
    assert(plan@ =~= seq![
        StepView::Do {
            call: CallView::CheckLinkedDir { at: Place::Bucket },
            rule: must(Report::NoBucket),
        },
        StepView::Ask {
            question: QuestionView::ProbePlainPart {
                at: Place::PlainPart { id: c.upload_id@, name: stem@ },
            },
        },
    ]);
}

/// The first claimed part is looked at first.
proof fn lemma_first_asked(
    upload: crate::types::MultipartUploadView,
    id: Seq<char>,
    parts: Seq<CompletePart>,
    now: i64,
)
    requires
        parts.len() > 0,
    ensures
        crate::filesystem::uploads::assembly_steps(
            upload,
            id,
            parts,
            Seq::empty(),
            Seq::empty(),
            0,
            now,
        ) == seq![
            StepView::Ask {
                question: QuestionView::ProbePlainPart {
                    at: Place::PlainPart {
                        id,
                        name: crate::numbers::part_name(parts[0].part_number as int),
                    },
                },
            },
        ],
{
}

/// A claim fits a part where it has no entity tag, or one that is the digest of the part once its
/// quotes are off.
pub open spec fn fits(etag: Seq<char>, digest: Seq<u8>) -> bool {
    etag.len() == 0 || exists|i: int| is_inner_text(etag, hex_text(digest), i)
}

proof fn lemma_fits(etag: Seq<char>, digest: Seq<u8>)
    ensures
        fits(etag, digest) <==> tag_fits(etag, hex_text(digest)),
{
    let t = hex_text(digest);
    let x = lemma_unquoted_front(etag);
    let rest = etag.skip(x);
    let y = lemma_unquoted_back(rest);
    assert(unquoted(etag) == rest.take(y));
    if unquoted(etag) == t {
        assert forall|j: int| 0 <= j < x || x + t.len() <= j < etag.len() implies #[trigger] etag[j]
            == '"' by {
            if j >= x {
                assert(rest[j - x] == etag[j]);
            }
        }
        assert(etag.subrange(x, x + t.len()) =~= t);
        assert(is_inner_text(etag, t, x));
    }
    if exists|i: int| is_inner_text(etag, t, i) {
        let i = choose|i: int| is_inner_text(etag, t, i);
        if t.len() > 0 {
            lemma_is_inner(etag, t, i);
        } else {
            assert(x == etag.len()) by {
                if x < etag.len() {
                    assert(etag[x] == '"');
                }
            }
            assert(unquoted(etag) =~= t);
        }
    }
}

/// Each claimed part is looked at in turn: it has to be there, and its digest has to be the claimed
/// one. Its number, its size and its digest are remembered, and the next one is looked at.
pub proof fn plain_part_is_checked(
    a: PlainAssembling,
    env: &Env,
    part: PlainPart,
    r: Result<(PlainAssembling, Plan), StorageError>,
    root: &str,
    bucket: &str,
    place: &Place<String>,
    stem: String,
    path: String,
)
    requires
        call_ensures(PlainAssembling::probed, (a, env, part), r),
        a.found@.len() < a.parts@.len(),
        root@ == env.root@,
        bucket@ == env.bucket@,
        call_ensures(part_stem, (a.parts@[a.found@.len() as int].part_number,), stem),
        place@ == (Place::StoredPart { key: a.upload.key@, name: stem@ }),
        call_ensures(locate, (root, bucket, place), path),
    ensures
        ({
            let claim = a.parts@[a.found@.len() as int];
            &&& part.size is None ==> r == Err::<(PlainAssembling, Plan), StorageError>(
                StorageError::InvalidPart,
            )
            &&& part.size is Some && part.digest is Err ==> r == Err::<
                (PlainAssembling, Plan),
                StorageError,
            >(StorageError::Io(part.digest->Err_0))
            &&& part.size is Some && part.digest is Ok && (!fits(claim.etag@, part.digest->Ok_0@)
                || a.total + part.size->0 > u64::MAX) ==> r == Err::<
                (PlainAssembling, Plan),
                StorageError,
            >(StorageError::InvalidPart)
            &&& part.size is Some && part.digest is Ok && fits(claim.etag@, part.digest->Ok_0@)
                && a.total + part.size->0 <= u64::MAX ==> (r matches Ok((b, _)) && b.upload
                == a.upload && b.upload_id == a.upload_id && b.parts == a.parts && b.now == a.now
                && b.total == a.total + part.size->0 && b.digests@ == a.digests@
                + part.digest->Ok_0@ && b.found@.len() == a.found@.len() + 1 && (forall|i: int|
                0 <= i < a.found@.len() ==> (#[trigger] b.found@[i])@ == a.found@[i]@)
                && b.found@.last()@ == (PartRefView {
                part_number: claim.part_number,
                path: path@,
                size: part.size->0,
                md5_hex: hex_text(part.digest->Ok_0@),
            }))
        }),
{
    let k = a.found@.len() as int;
    if part.digest is Ok {
        lemma_fits(a.parts@[k].etag@, part.digest->Ok_0@);
    }
    if let Ok((b, _)) = r {
        let before = part_refs(a.found@);
        let after = part_refs(b.found@);
        assert(after.len() == before.len() + 1);
        assert forall|i: int| 0 <= i < a.found@.len() implies (#[trigger] b.found@[i])@
            == a.found@[i]@ by {
            assert(after[i] == before[i]);
        }
        assert(after[k] == b.found@[k]@);
    }
}

/// The sidecar of an object that was uploaded in parts.
pub open spec fn is_completed_sidecar(a: PlainAssembling, m: ObjectMetadataView) -> bool {
    &&& a.upload.content_type@.len() > 0 ==> m.content_type == a.upload.content_type@
    &&& a.upload.content_type@.len() == 0 ==> m.content_type == "application/octet-stream"@
    &&& a.total <= i64::MAX ==> m.content_length == a.total
    &&& m.etag == seq!['"'] + hex_text(md5_of(a.digests@)) + seq!['-'] + decimal(a.parts@.len())
        + seq!['"']
    &&& m.last_modified == a.now
    &&& m.user_metadata == pairs(a.upload.user_metadata@)
    &&& m.content_disposition.len() == 0
    &&& m.content_encoding.len() == 0
    &&& m.cache_control.len() == 0
    &&& m.multipart == Some(part_refs(a.found@))
}

/// Once the last claimed part was looked at, the object is put together: its sidecar has the parts,
/// the sum of their sizes, and the entity tag that is made of their digests and their number. The
/// upload is removed.
pub proof fn checked_parts_make_the_object(
    a: PlainAssembling,
    env: &Env,
    part: PlainPart,
    r: Result<(PlainAssembling, Plan), StorageError>,
)
    requires
        call_ensures(PlainAssembling::probed, (a, env, part), r),
        r is Ok,
        a.found@.len() + 1 == a.parts@.len(),
    ensures
        r matches Ok((b, plan)) && exists|m: ObjectMetadataView|
            is_completed_sidecar(b, m) && #[trigger] puts_sidecar(plan@, a.upload.key@, m)
                && plan@.last() == (StepView::Finish {
                outcome: OutcomeView::Etag { etag: m.etag },
            }) && plan@.contains(
                StepView::Do {
                    call: CallView::RemoveDirAll { at: Place::PlainUpload { id: a.upload_id@ } },
                    rule: may(),
                },
            ),
{
    let (b, plan) = r->Ok_0;
    let parts = part_refs(b.found@);
    assert(parts.len() == part_refs(a.found@).len() + 1);
    assert(part_refs(a.found@).len() == a.found@.len());
    let tag = crate::cas::complete::composite_tag(md5_of(b.digests@), b.parts@.len());
    let m = complete_metadata(b.upload@, parts, b.total, tag, b.now);
    let key = a.upload.key@;
    let steps = complete_steps(b.upload_id@, key, parts, m);
    assert(plan@ == steps);
    let store = store_steps(b.upload_id@, key, parts);
    let side = sidecar_steps(key, m);
    let at = 4 + store.len() as int;
    assert forall|k: int| 0 <= k < side.len() implies plan@[at + k] == #[trigger] side[k] by {}
    lemma_sidecar(plan@, at, key, m);
    assert(plan@[plan@.len() - 2] is Do);
    reveal_strlit("-");
    assert("-"@ =~= seq!['-']);
    assert(tag =~= seq!['"'] + hex_text(md5_of(b.digests@)) + seq!['-'] + decimal(b.parts@.len())
        + seq!['"']);
    assert(is_completed_sidecar(b, m));
}

/// A directory whose files are no objects.
pub proof fn hidden_directories_have_their_names(name: &str, r: bool)
    requires
        call_ensures(hides_files, (name,), r),
    ensures
        r <==> name@ == ".multipart"@ || ".parts"@.is_suffix_of(name@),
{
}

/// A file that is an object: no directory above it is hidden, and its name is neither that of a
/// sidecar nor that of a file that is being written.
pub open spec fn is_data_file(rel: Seq<char>) -> bool {
    &&& forall|i: int, j: int|
        #[trigger] is_segment(rel, '/', i, j) && j < rel.len() ==> rel.subrange(i, j)
            != ".multipart"@ && !".parts"@.is_suffix_of(rel.subrange(i, j))
    &&& forall|i: int|
        #[trigger] is_segment(rel, '/', i, rel.len() as int) ==> !".s3meta"@.is_suffix_of(
            rel.subrange(i, rel.len() as int),
        ) && forall|p: int|
            !#[trigger] occurs_at(rel.subrange(i, rel.len() as int), ".tmp."@, p)
}

proof fn lemma_data_file(rel: Seq<char>)
    ensures
        is_object_file(rel) <==> is_data_file(rel),
{
    let comps = split(rel, '/');
    let n = rel.len() as int;
    lemma_split_pieces(rel, '/');
    let (last, end) = lemma_piece_is_segment(rel, '/', comps.len() - 1);
    assert(end == n);
    let name = rel.subrange(last, n);
    assert(name == comps.last());
    assert(has_text(name, ".tmp."@) <==> exists|p: int| #[trigger] occurs_at(name, ".tmp."@, p)) by {
        if has_text(name, ".tmp."@) {
            let p = choose|p: int| stands_at(name, ".tmp."@, p);
            assert(occurs_at(name, ".tmp."@, p));
        }
        if exists|p: int| #[trigger] occurs_at(name, ".tmp."@, p) {
            let p = choose|p: int| #[trigger] occurs_at(name, ".tmp."@, p);
            assert(stands_at(name, ".tmp."@, p));
        }
    }
    if is_object_file(rel) {
        assert forall|i: int, j: int| #[trigger] is_segment(rel, '/', i, j) && j < rel.len() implies rel.subrange(
            i,
            j,
        ) != ".multipart"@ && !".parts"@.is_suffix_of(rel.subrange(i, j)) by {
            let k = lemma_inner_segment(rel, i, j);
            assert(!is_hidden_dir(comps[k]));
        }
        assert forall|i: int| #[trigger] is_segment(rel, '/', i, n) implies !".s3meta"@.is_suffix_of(
            rel.subrange(i, n),
        ) && forall|p: int| !#[trigger] occurs_at(rel.subrange(i, n), ".tmp."@, p) by {
            lemma_one_end(rel, i, last);
        }
    }
    if is_data_file(rel) {
        assert forall|k: int| 0 <= k < comps.len() - 1 implies !is_hidden_dir(#[trigger] comps[k]) by {
            let (i, j) = lemma_piece_is_segment(rel, '/', k);
            assert(is_segment(rel, '/', i, j) && j < n);
        }
        assert(is_segment(rel, '/', last, n));
    }
}

proof fn lemma_one_end(rel: Seq<char>, a: int, b: int)
    requires
        is_segment(rel, '/', a, rel.len() as int),
        is_segment(rel, '/', b, rel.len() as int),
    ensures
        a == b,
{
    if a < b {
        assert(rel[b - 1] != '/');
    }
    if b < a {
        assert(rel[a - 1] != '/');
    }
}

/// A segment that is not the last one is one of the pieces before the last.
proof fn lemma_inner_segment(rel: Seq<char>, i: int, j: int) -> (k: int)
    requires
        is_segment(rel, '/', i, j),
        j < rel.len(),
    ensures
        0 <= k < split(rel, '/').len() - 1,
        split(rel, '/')[k] == rel.subrange(i, j),
{
    let a = rel.take(j);
    let b = rel.skip(j + 1);
    assert(rel =~= a.push('/') + b);
    crate::text::lemma_split_at(a, b, '/');
    lemma_split_pieces(b, '/');
    assert(is_segment(a, '/', i, j)) by {
        assert(i == 0 || a[i - 1] == rel[i - 1]);
        assert forall|k: int| i <= k < j implies #[trigger] a[k] != '/' by {
            assert(rel[k] != '/');
        }
    }
    let k = lemma_segment_is_piece(a, '/', i, j);
    assert(a.subrange(i, j) =~= rel.subrange(i, j));
    assert(split(rel, '/')[k] == split(a, '/')[k]);
    k
}

proof fn lemma_object_files(rels: Seq<Seq<char>>, t: Seq<char>)
    ensures
        object_files(rels).contains(t) <==> rels.contains(t) && is_data_file(t),
    decreases rels.len(),
{
    let all = object_files(rels);
    if rels.len() > 0 {
        let front = rels.drop_last();
        let early = object_files(front);
        lemma_object_files(front, t);
        lemma_data_file(rels.last());
        if all.contains(t) {
            let k = all.index_of(t);
            if k < early.len() {
                assert(early[k] == t);
                assert(early.contains(t));
                let i = front.index_of(t);
                assert(rels[i] == t);
            } else {
                assert(rels[rels.len() - 1] == t);
            }
        }
        if rels.contains(t) && is_data_file(t) {
            let i = rels.index_of(t);
            if i < front.len() {
                assert(front[i] == t);
                assert(front.contains(t));
                let k = early.index_of(t);
                assert(all[k] == t);
            } else {
                assert(all[all.len() - 1] == t);
            }
        }
    }
}

/// The keys of a bucket in the plain layout are the paths of its data files. Those with the prefix
/// and without a delimiter behind it are described one by one; the others are grouped.
pub proof fn plain_listing_groups_the_data_files(
    b: PlainBrowsing,
    rels: Vec<String>,
    keys: Seq<Seq<char>>,
    r: Result<(Option<PlainFilling>, Plan), StorageError>,
    t: Seq<char>,
)
    requires
        call_ensures(PlainBrowsing::walked, (b, Ok::<Vec<String>, IoError>(rels)), r),
        forall|k: Seq<char>| #[trigger] keys.contains(k) <==> texts(rels@).contains(k) && is_data_file(k),
    ensures
        r is Ok,
        r->Ok_0.0 matches Some(f) ==> {
            &&& texts(f.keys@).contains(t) <==> is_listed_alone(keys, b.prefix@, b.delimiter@, t)
            &&& texts(f.groups@).contains(t) <==> is_common_prefix(
                keys,
                b.prefix@,
                b.delimiter@,
                t,
            )
            &&& f.next == 0
            &&& f.objects@.len() == 0
            &&& f.start == b.start
            &&& f.max == b.max
            &&& r->Ok_0.1@ == seq![
                StepView::Ask { question: QuestionView::Describe { key: f.keys@[0]@ } },
            ]
        },
        r->Ok_0.0 is None ==> !is_listed_alone(keys, b.prefix@, b.delimiter@, t),
{
    let found = object_files(texts(rels@));
    assert forall|k: Seq<char>| found.contains(k) <==> keys.contains(k) by {
        lemma_object_files(texts(rels@), k);
    }
    lemma_grouping(found, b.prefix@, b.delimiter@, t);
    lemma_same_keys(found, keys, b.prefix@, b.delimiter@, t);
    if let Some(f) = r->Ok_0.0 {
        assert(texts(f.keys@)[0] == f.keys@[0]@);
    }
}

proof fn lemma_same_keys(
    a: Seq<Seq<char>>,
    b: Seq<Seq<char>>,
    prefix: Seq<char>,
    delimiter: Seq<char>,
    t: Seq<char>,
)
    requires
        forall|k: Seq<char>| a.contains(k) <==> b.contains(k),
    ensures
        is_listed_alone(a, prefix, delimiter, t) <==> is_listed_alone(b, prefix, delimiter, t),
        is_common_prefix(a, prefix, delimiter, t) <==> is_common_prefix(b, prefix, delimiter, t),
{
    assert(a.contains(t) <==> b.contains(t));
    if is_common_prefix(a, prefix, delimiter, t) {
        let (key, p) = choose|key: Seq<char>, p: int|
            a.contains(key) && prefix.is_prefix_of(key) && #[trigger] crate::promises::listing::is_cut(
                key,
                prefix,
                delimiter,
                p,
            ) && t == key.take(p + delimiter.len());
        assert(b.contains(key));
    }
    if is_common_prefix(b, prefix, delimiter, t) {
        let (key, p) = choose|key: Seq<char>, p: int|
            b.contains(key) && prefix.is_prefix_of(key) && #[trigger] crate::promises::listing::is_cut(
                key,
                prefix,
                delimiter,
                p,
            ) && t == key.take(p + delimiter.len());
        assert(a.contains(key));
    }
}

/// What a request for a listing comes to in the plain layout: a limit that is not positive means a
/// thousand.
pub proof fn plain_listing_takes_its_limits_from_the_request(
    fs: &Filesystem,
    input: &ListObjectsInput,
    r: (PlainBrowsing, Plan),
)
    requires
        call_ensures(Filesystem::list_objects, (fs, input), r),
    ensures
        r.0.prefix@ == input.prefix@,
        r.0.delimiter@ == input.delimiter@,
        input.continuation_token@.len() > 0 ==> r.0.start@ == input.continuation_token@,
        input.continuation_token@.len() == 0 ==> r.0.start@ == input.start_after@,
        input.max_keys <= 0 ==> r.0.max == 1000,
        input.max_keys > 0 ==> r.0.max == input.max_keys,
{
}

/// What is listed of a data file: the sidecar counts where it could be read, and the file itself
/// where it could not.
pub open spec fn is_line_of(line: ObjectInfoView, key: Seq<char>, file: FileDescription) -> bool {
    &&& line.key == key
    &&& file.metadata matches Some(m) ==> line.size == m.content_length && line.etag == m.etag@
        && line.last_modified_unix == m.last_modified
    &&& file.metadata is None ==> (file.size <= i64::MAX ==> line.size == file.size)
        && line.etag.len() == 0 && line.last_modified_unix == file.mtime
}

/// A key whose file was described gets its line, and the next one is described.
pub proof fn described_file_gets_its_line(
    f: PlainFilling,
    file: FileDescription,
    r: Result<(Option<PlainFilling>, Plan), StorageError>,
)
    requires
        call_ensures(PlainFilling::described, (f, Ok::<FileDescription, IoError>(file)), r),
        f.next + 1 < f.keys@.len(),
    ensures
        r matches Ok((Some(g), plan)) && g.keys == f.keys && g.next == f.next + 1 && g.groups
            == f.groups && g.start == f.start && g.max == f.max && g.objects@.len()
            == f.objects@.len() + 1 && (forall|i: int|
            0 <= i < f.objects@.len() ==> (#[trigger] g.objects@[i])@ == f.objects@[i]@)
            && is_line_of(g.objects@.last()@, f.keys@[f.next as int]@, file) && plan@ == seq![
            StepView::Ask { question: QuestionView::Describe { key: f.keys@[f.next + 1]@ } },
        ],
{
    if let Ok((Some(g), _)) = r {
        let before = info_views(f.objects@);
        let after = info_views(g.objects@);
        assert(after.len() == before.len() + 1);
        assert forall|i: int| 0 <= i < f.objects@.len() implies (#[trigger] g.objects@[i])@
            == f.objects@[i]@ by {
            assert(after[i] == before[i]);
        }
        assert(after[f.objects@.len() as int] == g.objects@.last()@);
    }
}

proof fn lemma_info_at(infos: Seq<ObjectInfoView>, k: int)
    requires
        0 <= k < infos.len(),
        forall|i: int, j: int|
            0 <= i < j < infos.len() ==> (#[trigger] infos[i]).key != (#[trigger] infos[j]).key,
    ensures
        info_at(infos, infos[k].key) == Some(infos[k]),
    decreases infos.len(),
{
    if k < infos.len() - 1 {
        assert(infos[k].key != infos[infos.len() - 1].key);
        lemma_info_at(infos.drop_last(), k);
    }
}

proof fn lemma_infos_at(infos: Seq<ObjectInfoView>, keys: Seq<Seq<char>>)
    requires
        forall|i: int, j: int|
            0 <= i < j < infos.len() ==> (#[trigger] infos[i]).key != (#[trigger] infos[j]).key,
        forall|k: int| 0 <= k < keys.len() ==> has_key(infos, #[trigger] keys[k]),
    ensures
        infos_at(infos, keys).len() == keys.len(),
        forall|k: int|
            0 <= k < keys.len() ==> (#[trigger] infos_at(infos, keys)[k]).key == keys[k]
                && infos.contains(infos_at(infos, keys)[k]),
    decreases keys.len(),
{
    if keys.len() > 0 {
        let front = keys.drop_last();
        assert forall|k: int| 0 <= k < front.len() implies has_key(infos, #[trigger] front[k]) by {
            assert(has_key(infos, keys[k]));
        }
        lemma_infos_at(infos, front);
        assert(has_key(infos, keys[keys.len() - 1]));
        let i = choose|i: int| 0 <= i < infos.len() && (#[trigger] infos[i]).key == keys.last();
        lemma_info_at(infos, i);
        let all = infos_at(infos, keys);
        let early = infos_at(infos, front);
        assert(all == early.push(infos[i]));
        assert forall|k: int| 0 <= k < keys.len() implies (#[trigger] all[k]).key == keys[k]
            && infos.contains(all[k]) by {
            if k < front.len() {
                assert(all[k] == early[k]);
                assert(front[k] == keys[k]);
            }
        }
    }
}

pub open spec fn has_key(infos: Seq<ObjectInfoView>, key: Seq<char>) -> bool {
    exists|i: int| 0 <= i < infos.len() && (#[trigger] infos[i]).key == key
}

/// The keys of the lines of a page.
pub open spec fn line_keys(page: ListObjectsView) -> Seq<Seq<char>> {
    Seq::new(page.objects.len(), |i: int| page.objects[i].key)
}

/// Once the last file was described the page is answered: it has the first of the described keys
/// and of the groups behind the start, in order and as many as the limit allows, each key with its
/// own line. Where something is missing the continuation token is the last key, or the last group
/// where the page has no key.
pub proof fn plain_page_has_the_first_lines(
    f: PlainFilling,
    file: FileDescription,
    r: Result<(Option<PlainFilling>, Plan), StorageError>,
)
    requires
        call_ensures(PlainFilling::described, (f, Ok::<FileDescription, IoError>(file)), r),
        f.next + 1 == f.keys@.len(),
        f.objects@.len() == f.next,
        forall|i: int|
            0 <= i < f.objects@.len() ==> (#[trigger] f.objects@[i]).key@ == f.keys@[i]@,
        texts(f.keys@).no_duplicates(),
        apart(texts(f.keys@), texts(f.groups@)),
    ensures
        r matches Ok((None, plan)) && plan@.len() == 1 && (plan@[0] matches StepView::Finish {
            outcome: OutcomeView::Listing { page },
        } && is_page(
            |t: Seq<char>| texts(f.keys@).contains(t),
            |t: Seq<char>| texts(f.groups@).contains(t),
            f.start@,
            f.max as int,
            line_keys(page),
            page.common_prefixes,
            page.is_truncated,
        ) && (forall|i: int|
            0 <= i < page.objects.len() ==> is_known_line(#[trigger] page.objects[i], f, file))
            && page.next_continuation_token == (if !page.is_truncated {
            Seq::<char>::empty()
        } else if page.objects.len() > 0 {
            page.objects.last().key
        } else if page.common_prefixes.len() > 0 {
            page.common_prefixes.last()
        } else {
            Seq::empty()
        })),
{
    let keys = texts(f.keys@);
    let groups = texts(f.groups@);
    let line = file_line(f.keys@[f.next as int]@, file);
    let infos = info_views(f.objects@).push(line);
    let n = keys.len() as int;
    assert(infos.len() == n);
    assert forall|i: int| 0 <= i < n implies (#[trigger] infos[i]).key == keys[i] by {
        if i < f.objects@.len() {
            assert(infos[i] == f.objects@[i]@);
            assert(f.objects@[i].key@ == f.keys@[i]@);
        }
    }
    assert forall|i: int, j: int| 0 <= i < j < infos.len() implies (#[trigger] infos[i]).key != (
    #[trigger] infos[j]).key by {
        assert(keys[i] != keys[j]);
    }
    let objects = in_text_order(keys);
    let set = text_set(groups);
    lemma_strict(keys);
    lemma_in_text_order(keys);
    lemma_text_set(groups);
    assert(apart(objects, set)) by {
        assert forall|i: int, j: int|
            0 <= i < objects.len() && 0 <= j < set.len() implies #[trigger] objects[i]
            != #[trigger] set[j] by {
            assert(objects.contains(objects[i]));
            assert(set.contains(set[j]));
            let a = keys.index_of(objects[i]);
            let b = groups.index_of(set[j]);
            assert(keys[a] != groups[b]);
        }
    }
    lemma_page(objects, set, f.start@, f.max as int);
    let lines = all_lines(objects, set, f.start@);
    let first = first_lines(lines, f.max as int);
    let picked = objects_of(first);
    assert forall|k: int| 0 <= k < picked.len() implies has_key(infos, #[trigger] picked[k]) by {
        assert(picked.contains(picked[k]));
        assert(objects.contains(picked[k]));
        assert(keys.contains(picked[k]));
        let i = keys.index_of(picked[k]);
        assert(infos[i].key == picked[k]);
    }
    lemma_infos_at(infos, picked);
    let page = plain_page(keys, infos, groups, f.start@, f.max as int);
    let plan = r->Ok_0.1;
    assert(plan@[0] == (StepView::Finish { outcome: OutcomeView::Listing { page } }));
    assert(line_keys(page) =~= picked);
    crate::promises::listing::lemma_same_page(
        |t: Seq<char>| objects.contains(t),
        |t: Seq<char>| set.contains(t),
        |t: Seq<char>| keys.contains(t),
        |t: Seq<char>| groups.contains(t),
        f.start@,
        f.max as int,
        picked,
        groups_of(first),
        lines.len() > f.max,
    );
    assert forall|i: int| 0 <= i < page.objects.len() implies is_known_line(
        #[trigger] page.objects[i],
        f,
        file,
    ) by {
        let x = page.objects[i];
        assert(infos.contains(x));
        let k = infos.index_of(x);
        if k < f.objects@.len() {
            assert(x == f.objects@[k]@);
        } else {
            assert(x == line);
        }
    }
}

pub open spec fn is_known_line(line: ObjectInfoView, f: PlainFilling, file: FileDescription) -> bool {
    is_line_of(line, f.keys@.last()@, file) || exists|k: int|
        0 <= k < f.objects@.len() && (#[trigger] f.objects@[k])@ == line
}

} // verus!
