//! Requests to the plain layout from beginning to end, and what a later request sees of an earlier
//! one.

use vstd::prelude::*;
use crate::cas::flows::ending;
use crate::cas::store::{quoted, stored_type, Env};
use crate::cas::upload_flows::{bodies_tag, digests_of};
use crate::filesystem::model::{
    after_steps, belongs_to, completion_moves_the_parts, deletion_removes_its_files, is_below,
    lemma_record_path, object_path, parts_ascend, put_object_replaces_its_files, same_file,
    sidecar_path, uploaded_path, Content, PlainDisk,
};
use crate::filesystem::objects::{
    delete_steps, missing_steps, put_metadata, put_steps, tmp_suffix, PlainPut,
};
use crate::filesystem::store::is_plain_key;
use crate::filesystem::uploads::{
    assembly_steps, complete_metadata, complete_steps, find_upload_step, numbers_ascend,
    stored_part, tag_fits, PlainAssembling,
};
use crate::metadata::{part_refs, ObjectMetadataView, PartRefView};
use crate::numbers::part_name;
use crate::outside::{hex_text, is_canonical_uuid, md5_of};
use crate::plan::call::{CallView, OutcomeView, QuestionView, Report};
use crate::plan::place::{place_path, Place};
use crate::plan::runner::{OnError, StepView};
use crate::reader::{body_from, lemma_sizes_from, selected, sizes_from, sizes_match, ByteRange};
use crate::types::{
    is_bucket_name, pairs, BodySourceView, CompletePart, GetObjectView, IoError, IoErrorKind,
    MultipartUploadView, StorageError,
};

verus! {

/// What a request for the headers of an object is answered, where no call fails.
pub open spec fn plain_head_reply(
    disk: PlainDisk,
    root: Seq<char>,
    bucket: Seq<char>,
    key: Seq<char>,
) -> Option<Result<OutcomeView, StorageError>> {
    let at = sidecar_path(root, bucket, key);
    if !disk.dom().contains(at) {
        ending(missing_steps())
    } else {
        match disk[at] {
            Content::Sidecar(m) => ending(
                seq![StepView::Finish { outcome: OutcomeView::Headers { metadata: m } }],
            ),
            _ => None,
        }
    }
}

/// What a request for an object is answered, where no call fails.
pub open spec fn plain_get_reply(
    disk: PlainDisk,
    root: Seq<char>,
    bucket: Seq<char>,
    key: Seq<char>,
    range: Option<ByteRange>,
) -> Option<Result<OutcomeView, StorageError>> {
    let at = sidecar_path(root, bucket, key);
    let file = object_path(root, bucket, key);
    if !disk.dom().contains(at) {
        ending(missing_steps())
    } else {
        match disk[at] {
            Content::Sidecar(m) => match m.multipart {
                Some(parts) => if sizes_from(parts, 0) <= u64::MAX {
                    ending(
                        seq![
                            StepView::Finish {
                                outcome: OutcomeView::Object {
                                    object: GetObjectView {
                                        metadata: m,
                                        body: BodySourceView::Parts { parts },
                                        resolved_range: range,
                                        total_size: sizes_from(parts, 0) as u64,
                                    },
                                },
                            },
                        ],
                    )
                } else {
                    Some(
                        Err(
                            StorageError::Io(IoError { kind: IoErrorKind::InvalidData, code: 0 }),
                        ),
                    )
                },
                None => if !disk.dom().contains(file) {
                    ending(missing_steps())
                } else {
                    match disk[file] {
                        Content::Bytes(b) => ending(
                            seq![
                                StepView::Finish {
                                    outcome: OutcomeView::Object {
                                        object: GetObjectView {
                                            metadata: m,
                                            body: BodySourceView::Single {
                                                path: file,
                                                size: b.len() as u64,
                                            },
                                            resolved_range: range,
                                            total_size: m.content_length as u64,
                                        },
                                    },
                                },
                            ],
                        ),
                        _ => None,
                    }
                },
            },
            _ => None,
        }
    }
}

/// The bytes of a file.
pub open spec fn bytes_at(disk: PlainDisk, path: Seq<char>) -> Seq<u8> {
    match disk[path] {
        Content::Bytes(b) => b,
        _ => Seq::empty(),
    }
}

/// The bytes of the files that a body is made of.
pub open spec fn plain_files(disk: PlainDisk, body: BodySourceView) -> Seq<Seq<u8>> {
    match body {
        BodySourceView::Single { path, .. } => seq![bytes_at(disk, path)],
        BodySourceView::Parts { parts } => Seq::new(
            parts.len(),
            |i: int| bytes_at(disk, parts[i].path),
        ),
    }
}

/// The sizes that are recorded of the files are their sizes.
pub open spec fn plain_sized(disk: PlainDisk, body: BodySourceView) -> bool {
    match body {
        BodySourceView::Single { path, size } => bytes_at(disk, path).len() == size,
        BodySourceView::Parts { parts } => sizes_match(parts, plain_files(disk, body)),
    }
}

/// The bytes that are sent with an answer to a request for an object: those that the readers of
/// one file or of several parts give.
pub open spec fn plain_sent(disk: PlainDisk, object: GetObjectView) -> Seq<u8> {
    selected(body_from(plain_files(disk, object.body), 0), object.resolved_range)
}

/// An object has these headers, and a request for it is answered with them and with the bytes of
/// `body`, or with the range of them that was asked for.
pub open spec fn plain_reads_as(
    disk: PlainDisk,
    root: Seq<char>,
    bucket: Seq<char>,
    key: Seq<char>,
    m: ObjectMetadataView,
    total: u64,
    body: Seq<u8>,
) -> bool {
    &&& plain_head_reply(disk, root, bucket, key) == Some(
        Ok::<OutcomeView, StorageError>(OutcomeView::Headers { metadata: m }),
    )
    &&& forall|range: Option<ByteRange>|
        {
            &&& #[trigger] plain_get_reply(disk, root, bucket, key, range) matches Some(
                Ok(OutcomeView::Object { object }),
            )
            &&& object.metadata == m
            &&& object.resolved_range == range
            &&& object.total_size == total
            &&& plain_sized(disk, object.body)
            &&& plain_sent(disk, object) == selected(body, range)
        }
}

/// There is no such object.
pub open spec fn plain_is_absent(
    disk: PlainDisk,
    root: Seq<char>,
    bucket: Seq<char>,
    key: Seq<char>,
) -> bool {
    let absent = Some(Err::<OutcomeView, StorageError>(StorageError::ObjectNotFound));
    &&& plain_head_reply(disk, root, bucket, key) == absent
    &&& forall|range: Option<ByteRange>| #[trigger]
        plain_get_reply(disk, root, bucket, key, range) == absent
}

/// The error that a step fails with which checks that something is there.
pub open spec fn refused_by(
    disk: PlainDisk,
    root: Seq<char>,
    bucket: Seq<char>,
    step: StepView,
) -> Option<StorageError> {
    match step {
        StepView::Do { call: CallView::CheckExists { at }, rule } => if disk.dom().contains(
            place_path(root, bucket, at),
        ) {
            None
        } else {
            match rule.on_error {
                OnError::Fail(Report::Given(e)) => Some(e),
                _ => None,
            }
        },
        _ => None,
    }
}

/// An object that is put is read back, whole or in part: its entity tag is the digest of its bytes,
/// and its length, its type and its metadata are those it was put with. No part of an older version
/// is left, and no other file changes. Once it is deleted, nothing of it is left, and it is not
/// found.
pub proof fn put_object_is_read_back(
    disk: PlainDisk,
    root: Seq<char>,
    bucket: Seq<char>,
    put: PlainPut,
    body: Seq<u8>,
)
    requires
        body.len() <= u64::MAX,
    ensures
        ({
            let key = put.key@;
            let object = object_path(root, bucket, key);
            let m = put_metadata(put, quoted(hex_text(md5_of(body))), body.len() as u64);
            let steps = put_steps(key, put.tmp@, m);
            let written = disk.insert(object + tmp_suffix(put.tmp@), Content::Bytes(body));
            let x = after_steps(written, root, bucket, steps);
            let y = after_steps(x, root, bucket, delete_steps(key));
            &&& ending(steps) == Some(
                Ok::<OutcomeView, StorageError>(
                    OutcomeView::Etag { etag: quoted(hex_text(md5_of(body))) },
                ),
            )
            &&& plain_reads_as(x, root, bucket, key, m, m.content_length as u64, body)
            &&& m.etag == quoted(hex_text(md5_of(body)))
            &&& body.len() <= i64::MAX ==> m.content_length == body.len()
            &&& m.content_type == stored_type(put.content_type@)
            &&& put.content_type@.len() > 0 ==> m.content_type == put.content_type@
            &&& put.content_type@.len() == 0 ==> m.content_type == "application/octet-stream"@
            &&& m.user_metadata == pairs(put.user_metadata@)
            &&& forall|p: Seq<char>|
                is_below(p, object + ".parts"@) ==> !(#[trigger] x.dom().contains(p))
            &&& forall|p: Seq<char>|
                !belongs_to(p, root, bucket, key, put.tmp@) ==> #[trigger] same_file(x, disk, p)
            &&& ending(delete_steps(key)) == Some(
                Ok::<OutcomeView, StorageError>(OutcomeView::Nothing),
            )
            &&& plain_is_absent(y, root, bucket, key)
            &&& !y.dom().contains(object)
            &&& forall|p: Seq<char>|
                is_below(p, object + ".parts"@) ==> !(#[trigger] y.dom().contains(p))
            &&& forall|p: Seq<char>|
                !belongs_to(p, root, bucket, key, put.tmp@) ==> #[trigger] same_file(y, disk, p)
        }),
{
    let key = put.key@;
    let object = object_path(root, bucket, key);
    let m = put_metadata(put, quoted(hex_text(md5_of(body))), body.len() as u64);
    let steps = put_steps(key, put.tmp@, m);
    let tmp = object + tmp_suffix(put.tmp@);
    let written = disk.insert(tmp, Content::Bytes(body));
    let x = after_steps(written, root, bucket, steps);
    let y = after_steps(x, root, bucket, delete_steps(key));
    put_object_replaces_its_files(written, root, bucket, key, put.tmp@, body, m);
    deletion_removes_its_files(x, root, bucket, key);
    assert forall|range: Option<ByteRange>|
        {
            &&& #[trigger] plain_get_reply(x, root, bucket, key, range) matches Some(
                Ok(OutcomeView::Object { object: found }),
            )
            &&& found.metadata == m
            &&& found.resolved_range == range
            &&& found.total_size == m.content_length as u64
            &&& plain_sized(x, found.body)
            &&& plain_sent(x, found) == selected(body, range)
        } by {
        let source = BodySourceView::Single { path: object, size: body.len() as u64 };
        let files = plain_files(x, source);
        assert(files.len() == 1 && files[0] == body);
        assert(body_from(files, 1) =~= Seq::empty());
        assert(body_from(files, 0) =~= body);
    }
    assert forall|p: Seq<char>|
        !belongs_to(p, root, bucket, key, put.tmp@) implies #[trigger] same_file(x, disk, p) by {
        assert(same_file(x, written, p));
        assert(p != tmp);
    }
    assert forall|p: Seq<char>|
        !belongs_to(p, root, bucket, key, put.tmp@) implies #[trigger] same_file(y, disk, p) by {
        assert(same_file(y, x, p));
        assert(same_file(x, disk, p));
    }
}

/// The parts of a completed object as its sidecar names them.
pub open spec fn completed_parts(
    env: &Env,
    key: Seq<char>,
    claims: Seq<CompletePart>,
    bodies: Seq<Seq<u8>>,
) -> Seq<PartRefView> {
    Seq::new(
        claims.len(),
        |i: int|
            stored_part(
                env,
                key,
                claims[i].part_number,
                bodies[i].len() as u64,
                md5_of(bodies[i]),
            ),
    )
}

/// The headers of a completed object.
pub open spec fn completed_metadata(
    env: &Env,
    upload: MultipartUploadView,
    claims: Seq<CompletePart>,
    bodies: Seq<Seq<u8>>,
    now: i64,
) -> ObjectMetadataView {
    complete_metadata(
        upload,
        completed_parts(env, upload.key, claims, bodies),
        body_from(bodies, 0).len() as u64,
        bodies_tag(bodies),
        now,
    )
}

proof fn lemma_numbers(claims: Seq<CompletePart>, i: int, j: int)
    requires
        numbers_ascend(claims),
        0 <= i < j < claims.len(),
    ensures
        claims[i].part_number < claims[j].part_number,
    decreases j,
{
    assert(claims[j].part_number > claims[j - 1].part_number);
    if i < j - 1 {
        lemma_numbers(claims, i, j - 1);
    }
}

/// An object in parts is read as the parts that its sidecar names.
proof fn lemma_parts_read_as(
    disk: PlainDisk,
    root: Seq<char>,
    bucket: Seq<char>,
    key: Seq<char>,
    m: ObjectMetadataView,
    parts: Seq<PartRefView>,
    bodies: Seq<Seq<u8>>,
)
    requires
        disk.dom().contains(sidecar_path(root, bucket, key)),
        disk[sidecar_path(root, bucket, key)] == Content::Sidecar(m),
        m.multipart == Some(parts),
        sizes_match(parts, bodies),
        forall|i: int|
            0 <= i < parts.len() ==> bytes_at(disk, (#[trigger] parts[i]).path) == bodies[i],
        body_from(bodies, 0).len() <= u64::MAX,
    ensures
        plain_reads_as(
            disk,
            root,
            bucket,
            key,
            m,
            body_from(bodies, 0).len() as u64,
            body_from(bodies, 0),
        ),
{
    lemma_sizes_from(parts, bodies, 0);
    let source = BodySourceView::Parts { parts };
    assert(plain_files(disk, source) =~= bodies);
}

/// A body is no longer than all of them together.
proof fn lemma_body_holds(bodies: Seq<Seq<u8>>, from: int, i: int)
    requires
        0 <= from <= i < bodies.len(),
    ensures
        bodies[i].len() <= body_from(bodies, from).len(),
    decreases i - from,
{
    if from < i {
        lemma_body_holds(bodies, from + 1, i);
    }
}

/// Whether a plan, where no call fails, completes an upload: the object is read back, the upload is
/// gone, and no other file changes.
pub open spec fn completed_reads_as(
    disk: PlainDisk,
    env: &Env,
    upload: MultipartUploadView,
    id: Seq<char>,
    claims: Seq<CompletePart>,
    bodies: Seq<Seq<u8>>,
    now: i64,
    steps: Seq<StepView>,
) -> bool {
    let root = env.root@;
    let bucket = env.bucket@;
    let key = upload.key;
    let parts = completed_parts(env, key, claims, bodies);
    let m = completed_metadata(env, upload, claims, bodies, now);
    let total = body_from(bodies, 0).len() as u64;
    let x = after_steps(disk, root, bucket, steps);
    let dir = place_path(root, bucket, Place::PlainUpload { id });
    &&& ending(steps) == Some(
        Ok::<OutcomeView, StorageError>(OutcomeView::Etag { etag: bodies_tag(bodies) }),
    )
    &&& plain_reads_as(x, root, bucket, key, m, total, body_from(bodies, 0))
    &&& m.etag == bodies_tag(bodies)
    &&& total <= i64::MAX ==> m.content_length == total
    &&& m.content_type == stored_type(upload.content_type)
    &&& upload.content_type.len() > 0 ==> m.content_type == upload.content_type
    &&& upload.content_type.len() == 0 ==> m.content_type == "application/octet-stream"@
    &&& m.user_metadata == upload.user_metadata
    &&& forall|p: Seq<char>|
        is_below(p, object_path(root, bucket, key) + ".parts"@) && #[trigger]
            x.dom().contains(p) ==> exists|i: int|
            0 <= i < parts.len() && (#[trigger] parts[i]).path == p
    &&& forall|p: Seq<char>| is_below(p, dir) ==> !(#[trigger] x.dom().contains(p))
    &&& refused_by(x, root, bucket, find_upload_step(id)) == Some(
        StorageError::NoSuchUpload,
    )
    &&& forall|p: Seq<char>|
        !belongs_to(p, root, bucket, key, Seq::empty()) && !is_below(p, dir)
            ==> #[trigger] same_file(x, disk, p)
}

/// What the last plan of a completion leaves on the disk.
proof fn lemma_completed_object(
    disk: PlainDisk,
    env: &Env,
    upload: MultipartUploadView,
    id: Seq<char>,
    claims: Seq<CompletePart>,
    bodies: Seq<Seq<u8>>,
    now: i64,
)
    requires
        is_bucket_name(env.bucket@),
        is_plain_key(upload.key),
        is_canonical_uuid(id),
        numbers_ascend(claims),
        bodies.len() == claims.len(),
        body_from(bodies, 0).len() <= u64::MAX,
        forall|i: int|
            0 <= i < claims.len() ==> ({
                let at = uploaded_path(
                    env.root@,
                    env.bucket@,
                    id,
                    (#[trigger] claims[i]).part_number,
                );
                disk.dom().contains(at) && disk[at] == Content::Bytes(bodies[i])
            }),
    ensures
        completed_reads_as(
            disk,
            env,
            upload,
            id,
            claims,
            bodies,
            now,
            assembly_steps(
                upload,
                id,
                claims,
                completed_parts(env, upload.key, claims, bodies),
                digests_of(bodies),
                body_from(bodies, 0).len() as u64,
                now,
            ),
        ),
{
    let root = env.root@;
    let bucket = env.bucket@;
    let key = upload.key;
    let parts = completed_parts(env, key, claims, bodies);
    let m = completed_metadata(env, upload, claims, bodies, now);
    let total = body_from(bodies, 0).len() as u64;
    let steps = assembly_steps(upload, id, claims, parts, digests_of(bodies), total, now);
    assert(steps == complete_steps(id, key, parts, m));
    let x = after_steps(disk, root, bucket, steps);
    assert(parts_ascend(parts)) by {
        assert forall|i: int, j: int| 0 <= i < j < parts.len() implies (
        #[trigger] parts[i]).part_number < (#[trigger] parts[j]).part_number by {
            lemma_numbers(claims, i, j);
        }
    }
    assert forall|i: int| 0 <= i < parts.len() implies disk.dom().contains(
        uploaded_path(root, bucket, id, (#[trigger] parts[i]).part_number),
    ) by {
        assert(parts[i].part_number == claims[i].part_number);
    }
    completion_moves_the_parts(disk, root, bucket, id, key, parts, m);
    lemma_record_path(root, bucket, id);
    assert(sizes_match(parts, bodies)) by {
        assert forall|i: int| 0 <= i < parts.len() implies (#[trigger] bodies[i]).len()
            == parts[i].size by {
            lemma_body_holds(bodies, 0, i);
        }
    }
    assert forall|i: int| 0 <= i < parts.len() implies bytes_at(x, (#[trigger] parts[i]).path)
        == bodies[i] by {
        assert(parts[i].part_number == claims[i].part_number);
    }
    lemma_parts_read_as(x, root, bucket, key, m, parts, bodies);
}

/// The stages of a completion: in each of them one more part was looked at, and every part fits its
/// claim.
pub open spec fn is_assembly(
    env: &Env,
    stages: Seq<PlainAssembling>,
    bodies: Seq<Seq<u8>>,
) -> bool {
    &&& stages.len() == bodies.len() + 1
    &&& stages[0].is_fresh()
    &&& stages[0].parts@.len() == bodies.len()
    &&& forall|i: int|
        0 <= i < bodies.len() ==> {
            &&& tag_fits(
                stages[0].parts@[i].etag@,
                hex_text(md5_of(#[trigger] bodies[i])),
            )
            &&& stages[i].grows_to(
                env,
                bodies[i].len() as u64,
                md5_of(bodies[i]),
                stages[i + 1],
            )
        }
}

/// What a stage holds.
proof fn lemma_stage(env: &Env, stages: Seq<PlainAssembling>, bodies: Seq<Seq<u8>>, k: int)
    requires
        is_assembly(env, stages, bodies),
        body_from(bodies, 0).len() <= u64::MAX,
        0 <= k <= bodies.len(),
    ensures
        stages[k].upload == stages[0].upload,
        stages[k].upload_id == stages[0].upload_id,
        stages[k].parts == stages[0].parts,
        stages[k].now == stages[0].now,
        part_refs(stages[k].found@) == completed_parts(
            env,
            stages[0].upload.key@,
            stages[0].parts@,
            bodies,
        ).take(k),
        stages[k].digests@ == digests_of(bodies.take(k)),
        stages[k].total + body_from(bodies, k).len() == body_from(bodies, 0).len(),
    decreases k,
{
    let all = completed_parts(env, stages[0].upload.key@, stages[0].parts@, bodies);
    if k == 0 {
        assert(part_refs(stages[0].found@) =~= all.take(0));
        assert(stages[0].digests@ =~= digests_of(bodies.take(0)));
    } else {
        lemma_stage(env, stages, bodies, k - 1);
        let i = k - 1;
        assert(tag_fits(stages[0].parts@[i].etag@, hex_text(md5_of(bodies[i]))));
        assert(part_refs(stages[i].found@).len() == stages[i].found@.len());
        assert(all.take(k) =~= all.take(i).push(all[i]));
        assert(bodies.take(k).drop_last() =~= bodies.take(i));
        lemma_body_holds(bodies, 0, i);
        assert(body_from(bodies, i) == bodies[i] + body_from(bodies, k));
    }
}

/// An object that was uploaded in parts is read back: its bytes are those of the claimed parts, one
/// after the other, its length is theirs, and its entity tag is made of their digests and their
/// number. No part of an older version is left. The upload is gone: a request for its parts is
/// refused. No other file changes. On the way there the parts are looked at one after the other.
pub proof fn completed_object_is_read_back(
    disk: PlainDisk,
    env: &Env,
    stages: Seq<PlainAssembling>,
    bodies: Seq<Seq<u8>>,
)
    requires
        is_bucket_name(env.bucket@),
        is_assembly(env, stages, bodies),
        is_plain_key(stages[0].upload.key@),
        is_canonical_uuid(stages[0].upload_id@),
        numbers_ascend(stages[0].parts@),
        body_from(bodies, 0).len() <= u64::MAX,
        forall|i: int|
            0 <= i < bodies.len() ==> ({
                let at = uploaded_path(
                    env.root@,
                    env.bucket@,
                    stages[0].upload_id@,
                    (#[trigger] stages[0].parts@[i]).part_number,
                );
                disk.dom().contains(at) && disk[at] == Content::Bytes(bodies[i])
            }),
    ensures
        forall|i: int|
            0 <= i < bodies.len() ==> (#[trigger] stages[i]).next_steps() == seq![
                StepView::Ask {
                    question: QuestionView::ProbePlainPart {
                        at: Place::PlainPart {
                            id: stages[0].upload_id@,
                            name: part_name(stages[0].parts@[i].part_number as int),
                        },
                    },
                },
            ],
        completed_reads_as(
            disk,
            env,
            stages[0].upload@,
            stages[0].upload_id@,
            stages[0].parts@,
            bodies,
            stages[0].now,
            stages.last().next_steps(),
        ),
{
    let first = stages[0];
    let all = completed_parts(env, first.upload.key@, first.parts@, bodies);
    assert forall|i: int| 0 <= i < bodies.len() implies (#[trigger] stages[i]).next_steps()
        == seq![
        StepView::Ask {
            question: QuestionView::ProbePlainPart {
                at: Place::PlainPart {
                    id: first.upload_id@,
                    name: part_name(first.parts@[i].part_number as int),
                },
            },
        },
    ] by {
        lemma_stage(env, stages, bodies, i);
    }
    lemma_stage(env, stages, bodies, bodies.len() as int);
    assert(all.take(bodies.len() as int) =~= all);
    assert(bodies.take(bodies.len() as int) =~= bodies);
    lemma_completed_object(
        disk,
        env,
        first.upload@,
        first.upload_id@,
        first.parts@,
        bodies,
        first.now,
    );
}

} // verus!
