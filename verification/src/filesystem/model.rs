//! What the steps of the plain layout do to the files on disk.

use vstd::prelude::*;
use crate::filesystem::objects::{
    delete_steps, prune_steps, put_steps, sidecar_steps, tmp_suffix,
};
use crate::filesystem::store::{is_plain_key, object_depth, META_SUFFIX};
use crate::filesystem::uploads::{complete_steps, store_steps, RECORD_FILE};
use crate::metadata::{ObjectMetadataView, PartRefView};
use crate::numbers::{part_name, part_names_differ};
use crate::outside::is_canonical_uuid;
use crate::path::path_join;
use crate::plan::call::CallView;
use crate::plan::place::{place_path, Place};
use crate::plan::runner::StepView;
use crate::types::is_bucket_name;

verus! {

/// What a file holds.
pub enum Content {
    Bytes(Seq<u8>),
    Sidecar(ObjectMetadataView),
    Record,
}

/// The files on disk by their paths.
pub type PlainDisk = Map<Seq<char>, Content>;

/// Whether a path lies below a directory.
pub open spec fn is_below(path: Seq<char>, dir: Seq<char>) -> bool {
    dir.push('/').is_prefix_of(path)
}

/// A file is the same on both disks, or on neither.
pub open spec fn same_file(a: PlainDisk, b: PlainDisk, path: Seq<char>) -> bool {
    &&& a.dom().contains(path) <==> b.dom().contains(path)
    &&& b.dom().contains(path) ==> a[path] == b[path]
}

/// What a call that succeeds does to the files.
pub open spec fn plain_effect(
    disk: PlainDisk,
    root: Seq<char>,
    bucket: Seq<char>,
    call: CallView,
) -> PlainDisk {
    match call {
        CallView::Rename { src, dst } => {
            let from = place_path(root, bucket, src);
            let to = place_path(root, bucket, dst);
            disk.remove(from).insert(to, disk[from])
        },
        CallView::RemoveFile { at } => disk.remove(place_path(root, bucket, at)),
        CallView::RemoveDirAll { at } => disk.remove_keys(
            Set::new(|p: Seq<char>| is_below(p, place_path(root, bucket, at))),
        ),
        CallView::WriteBytes { at, data, .. } => disk.insert(
            place_path(root, bucket, at),
            Content::Bytes(data),
        ),
        CallView::WriteMetadata { at, metadata, .. } => disk.insert(
            place_path(root, bucket, at),
            Content::Sidecar(metadata),
        ),
        CallView::WriteUpload { at, .. } => disk.insert(
            place_path(root, bucket, at),
            Content::Record,
        ),
        _ => disk,
    }
}

/// The files after all calls of a list of steps.
pub open spec fn after_steps(
    disk: PlainDisk,
    root: Seq<char>,
    bucket: Seq<char>,
    steps: Seq<StepView>,
) -> PlainDisk
    decreases steps.len(),
{
    if steps.len() == 0 {
        disk
    } else {
        let front = after_steps(disk, root, bucket, steps.drop_last());
        match steps.last() {
            StepView::Do { call, .. } => plain_effect(front, root, bucket, call),
            _ => front,
        }
    }
}

proof fn lemma_after_both(
    disk: PlainDisk,
    root: Seq<char>,
    bucket: Seq<char>,
    a: Seq<StepView>,
    b: Seq<StepView>,
)
    ensures
        after_steps(disk, root, bucket, a + b) == after_steps(
            after_steps(disk, root, bucket, a),
            root,
            bucket,
            b,
        ),
    decreases b.len(),
{
    if b.len() == 0 {
        assert(a + b =~= a);
    } else {
        assert((a + b).drop_last() =~= a + b.drop_last());
        lemma_after_both(disk, root, bucket, a, b.drop_last());
    }
}

/// The path of the data file of a key.
pub open spec fn object_path(root: Seq<char>, bucket: Seq<char>, key: Seq<char>) -> Seq<char> {
    place_path(root, bucket, Place::Object { key })
}

/// The path of the sidecar of a key.
pub open spec fn sidecar_path(root: Seq<char>, bucket: Seq<char>, key: Seq<char>) -> Seq<char> {
    object_path(root, bucket, key) + META_SUFFIX@
}

/// A path that belongs to an object: its data file, its sidecar, one of these while it is written,
/// or a stored part.
pub open spec fn belongs_to(
    path: Seq<char>,
    root: Seq<char>,
    bucket: Seq<char>,
    key: Seq<char>,
    tmp: Seq<char>,
) -> bool {
    let object = object_path(root, bucket, key);
    ||| path == object
    ||| path == object + META_SUFFIX@
    ||| path == object + ".s3meta.tmp"@
    ||| path == object + tmp_suffix(tmp)
    ||| is_below(path, object + ".parts"@)
}

/// Suffixes that differ lead to paths that differ.
proof fn lemma_suffixes(p: Seq<char>, a: Seq<char>, b: Seq<char>)
    requires
        a != b,
    ensures
        p + a != p + b,
{
    if p + a == p + b {
        assert((p + a).skip(p.len() as int) =~= a);
        assert((p + b).skip(p.len() as int) =~= b);
    }
}

/// What is not a name with `.parts` behind the object does not lie below its parts.
proof fn lemma_not_a_part(p: Seq<char>, suffix: Seq<char>)
    requires
        suffix.len() < 2 || suffix[1] != 'p',
    ensures
        !is_below(p + suffix, p + ".parts"@),
{
    reveal_strlit(".parts");
    let dir = (p + ".parts"@).push('/');
    if dir.is_prefix_of(p + suffix) {
        assert(dir[p.len() as int + 1] == 'p');
        assert((p + suffix).subrange(0, dir.len() as int)[p.len() as int + 1] == dir[p.len() as int + 1]);
    }
}

proof fn lemma_known_suffixes(p: Seq<char>, tmp: Seq<char>)
    ensures
        p + META_SUFFIX@ != p,
        p + META_SUFFIX@ != p + ".s3meta.tmp"@,
        p + ".s3meta.tmp"@ != p,
        p + tmp_suffix(tmp) != p,
        p + tmp_suffix(tmp) != p + META_SUFFIX@,
        p + tmp_suffix(tmp) != p + ".s3meta.tmp"@,
        !is_below(p, p + ".parts"@),
        !is_below(p + META_SUFFIX@, p + ".parts"@),
        !is_below(p + ".s3meta.tmp"@, p + ".parts"@),
        !is_below(p + tmp_suffix(tmp), p + ".parts"@),
{
    reveal_strlit(".s3meta");
    reveal_strlit(".s3meta.tmp");
    reveal_strlit(".tmp.");
    assert(META_SUFFIX@.len() == 7 && ".s3meta.tmp"@.len() == 11);
    assert(META_SUFFIX@[1] == 's' && ".s3meta.tmp"@[1] == 's');
    assert(tmp_suffix(tmp)[1] == 't');
    lemma_suffixes(p, META_SUFFIX@, ".s3meta.tmp"@);
    lemma_suffixes(p, tmp_suffix(tmp), META_SUFFIX@);
    lemma_suffixes(p, tmp_suffix(tmp), ".s3meta.tmp"@);
    assert(p + Seq::<char>::empty() =~= p);
    lemma_suffixes(p, META_SUFFIX@, Seq::empty());
    lemma_suffixes(p, ".s3meta.tmp"@, Seq::empty());
    lemma_suffixes(p, tmp_suffix(tmp), Seq::empty());
    lemma_not_a_part(p, Seq::empty());
    lemma_not_a_part(p, META_SUFFIX@);
    lemma_not_a_part(p, ".s3meta.tmp"@);
    lemma_not_a_part(p, tmp_suffix(tmp));
}

/// The sidecar of a key is replaced, and nothing else changes.
proof fn lemma_sidecar(
    disk: PlainDisk,
    root: Seq<char>,
    bucket: Seq<char>,
    key: Seq<char>,
    metadata: ObjectMetadataView,
)
    ensures
        after_steps(disk, root, bucket, sidecar_steps(key, metadata)) == disk.remove(
            object_path(root, bucket, key) + ".s3meta.tmp"@,
        ).insert(sidecar_path(root, bucket, key), Content::Sidecar(metadata)),
{
    let steps = sidecar_steps(key, metadata);
    let tmp = Place::ObjectSide { key, suffix: ".s3meta.tmp"@ };
    let at = place_path(root, bucket, tmp);
    lemma_known_suffixes(object_path(root, bucket, key), Seq::empty());
    reveal_with_fuel(after_steps, 5);
    assert(steps.len() == 4);
    assert(steps.drop_last().drop_last().drop_last().drop_last() =~= Seq::empty());
    assert(disk.insert(at, Content::Sidecar(metadata)).remove(at) =~= disk.remove(at));
}

/// What putting an object does: once all steps are done, the data file holds the body and the
/// sidecar the headers, no part of an older version is left, and nothing else has changed.
pub proof fn put_object_replaces_its_files(
    disk: PlainDisk,
    root: Seq<char>,
    bucket: Seq<char>,
    key: Seq<char>,
    tmp: Seq<char>,
    body: Seq<u8>,
    metadata: ObjectMetadataView,
)
    requires
        disk.dom().contains(object_path(root, bucket, key) + tmp_suffix(tmp)),
        disk[object_path(root, bucket, key) + tmp_suffix(tmp)] == Content::Bytes(body),
    ensures
        ({
            let after = after_steps(disk, root, bucket, put_steps(key, tmp, metadata));
            &&& after.dom().contains(object_path(root, bucket, key))
            &&& after[object_path(root, bucket, key)] == Content::Bytes(body)
            &&& after.dom().contains(sidecar_path(root, bucket, key))
            &&& after[sidecar_path(root, bucket, key)] == Content::Sidecar(metadata)
            &&& !after.dom().contains(object_path(root, bucket, key) + tmp_suffix(tmp))
            &&& forall|p: Seq<char>|
                is_below(p, object_path(root, bucket, key) + ".parts"@) ==> !(
                #[trigger] after.dom().contains(p))
            &&& forall|p: Seq<char>|
                !belongs_to(p, root, bucket, key, tmp) ==> #[trigger] same_file(after, disk, p)
        }),
{
    let steps = put_steps(key, tmp, metadata);
    let object = object_path(root, bucket, key);
    lemma_known_suffixes(object, tmp);
    let opening = seq![steps[0], steps[1]];
    let closing = seq![steps[6], steps[7]];
    let middle = sidecar_steps(key, metadata);
    assert(middle.len() == 4);
    assert(steps =~= opening + middle + closing);
    lemma_after_both(disk, root, bucket, opening, middle);
    lemma_after_both(disk, root, bucket, opening + middle, closing);
    reveal_with_fuel(after_steps, 3);
    assert(opening.drop_last().drop_last() =~= Seq::empty());
    assert(closing.drop_last().drop_last() =~= Seq::empty());
    let renamed = after_steps(disk, root, bucket, opening);
    assert(renamed == disk.remove(object + tmp_suffix(tmp)).insert(object, Content::Bytes(body)));
    lemma_sidecar(renamed, root, bucket, key, metadata);
}

/// The directories above a data file hold no other files when they are removed.
proof fn lemma_prune(
    disk: PlainDisk,
    root: Seq<char>,
    bucket: Seq<char>,
    key: Seq<char>,
    depth: int,
)
    ensures
        after_steps(disk, root, bucket, prune_steps(key, depth)) == disk,
    decreases depth,
{
    let steps = prune_steps(key, depth);
    if depth > 0 {
        let first = seq![steps[0]];
        let rest = prune_steps(key, depth - 1);
        assert(steps =~= first + rest);
        lemma_after_both(disk, root, bucket, first, rest);
        reveal_with_fuel(after_steps, 2);
        assert(first.drop_last() =~= Seq::empty());
        lemma_prune(disk, root, bucket, key, depth - 1);
    }
}

/// A deleted object leaves nothing behind that is read, and other files are not touched.
pub proof fn deletion_removes_its_files(
    disk: PlainDisk,
    root: Seq<char>,
    bucket: Seq<char>,
    key: Seq<char>,
)
    ensures
        ({
            let after = after_steps(disk, root, bucket, delete_steps(key));
            let object = object_path(root, bucket, key);
            &&& !after.dom().contains(object)
            &&& !after.dom().contains(sidecar_path(root, bucket, key))
            &&& forall|p: Seq<char>|
                is_below(p, object + ".parts"@) ==> !(#[trigger] after.dom().contains(p))
            &&& forall|p: Seq<char>|
                p != object && p != sidecar_path(root, bucket, key) && !is_below(
                    p,
                    object + ".parts"@,
                ) ==> #[trigger] same_file(after, disk, p)
        }),
{
    let steps = delete_steps(key);
    let depth = object_depth(key);
    let middle = prune_steps(key, depth);
    let opening = seq![steps[0], steps[1], steps[2]];
    let closing = seq![steps.last()];
    assert(steps =~= opening + middle + closing);
    lemma_after_both(disk, root, bucket, opening, middle);
    lemma_after_both(disk, root, bucket, opening + middle, closing);
    reveal_with_fuel(after_steps, 4);
    assert(opening.drop_last().drop_last().drop_last() =~= Seq::empty());
    assert(closing.drop_last() =~= Seq::empty());
    lemma_prune(after_steps(disk, root, bucket, opening), root, bucket, key, depth);
}

/// The path of an uploaded part.
pub open spec fn uploaded_path(root: Seq<char>, bucket: Seq<char>, id: Seq<char>, n: i32) -> Seq<
    char,
> {
    place_path(root, bucket, Place::PlainPart { id, name: part_name(n as int) })
}

/// The path of a stored part.
pub open spec fn stored_path(root: Seq<char>, bucket: Seq<char>, key: Seq<char>, n: i32) -> Seq<
    char,
> {
    place_path(root, bucket, Place::StoredPart { key, name: part_name(n as int) })
}

/// The data root with a separator behind it.
pub open spec fn root_prefix(root: Seq<char>) -> Seq<char> {
    path_join(root, Seq::empty())
}

proof fn lemma_part_name_start(n: int)
    ensures
        part_name(n).len() > 0,
        part_name(n)[0] != '/',
{
    if n >= 0 {
        crate::numbers::lemma_decimal_value(n as nat);
    }
}

/// The files of an object lie in its bucket, not among the uploads.
proof fn lemma_bucket_paths(
    root: Seq<char>,
    bucket: Seq<char>,
    key: Seq<char>,
    tail: Seq<char>,
)
    requires
        is_bucket_name(bucket),
        is_plain_key(key),
    ensures
        ({
            let p = object_path(root, bucket, key) + tail;
            let r = root_prefix(root).len() as int;
            r < p.len() && p[r] != '.'
        }),
{
    let prefix = root_prefix(root);
    let b = path_join(root, bucket);
    assert(crate::types::is_name_edge(bucket[0]));
    assert(b =~= prefix + bucket);
    assert(crate::types::is_name_edge(bucket.last()));
    assert(b.last() == bucket.last());
    reveal_strlit("/");
    if key.len() > 0 && key[0] == '/' {
        assert("/"@ =~= key.subrange(0, 1));
        assert("/"@.is_prefix_of(key));
    }
    let object = object_path(root, bucket, key);
    assert(object == b.push('/') + key);
    assert((object + tail)[prefix.len() as int] == bucket[0]);
}

/// The files of an upload lie among the uploads.
proof fn lemma_upload_paths(root: Seq<char>, bucket: Seq<char>, id: Seq<char>, tail: Seq<char>)
    requires
        id.len() > 0,
        id[0] != '/',
    ensures
        ({
            let p = place_path(root, bucket, Place::PlainUpload { id }) + tail;
            let r = root_prefix(root).len() as int;
            r < p.len() && p[r] == '.'
        }),
{
    reveal_strlit(".multipart");
    let prefix = root_prefix(root);
    let area = path_join(root, ".multipart"@);
    assert(area =~= prefix + ".multipart"@);
    let dir = place_path(root, bucket, Place::PlainUpload { id });
    assert(dir == area.push('/') + id);
    assert((dir + tail)[prefix.len() as int] == '.');
}

proof fn lemma_uploaded_path(root: Seq<char>, bucket: Seq<char>, id: Seq<char>, n: i32)
    requires
        id.len() > 0,
        id[0] != '/',
        id.last() != '/',
    ensures
        uploaded_path(root, bucket, id, n) == place_path(
            root,
            bucket,
            Place::PlainUpload { id },
        ) + "/parts/"@ + part_name(n as int),
{
    reveal_strlit("parts");
    reveal_strlit("/parts/");
    reveal_strlit(".multipart");
    lemma_part_name_start(n as int);
    let dir = place_path(root, bucket, Place::PlainUpload { id });
    let area = path_join(root, ".multipart"@);
    assert(dir == area.push('/') + id);
    assert(dir.last() == id.last());
    let parts = path_join(dir, "parts"@);
    assert(parts =~= dir.push('/') + "parts"@);
    assert(parts.last() == 's');
    assert(uploaded_path(root, bucket, id, n) =~= parts.push('/') + part_name(n as int));
    assert(parts.push('/') + part_name(n as int) =~= dir + "/parts/"@ + part_name(n as int));
}

proof fn lemma_stored_path(root: Seq<char>, bucket: Seq<char>, key: Seq<char>, n: i32)
    ensures
        stored_path(root, bucket, key, n) == object_path(root, bucket, key) + ".parts/"@
            + part_name(n as int),
        is_below(
            stored_path(root, bucket, key, n),
            object_path(root, bucket, key) + ".parts"@,
        ),
{
    reveal_strlit(".parts");
    reveal_strlit(".parts/");
    lemma_part_name_start(n as int);
    let object = object_path(root, bucket, key);
    let dir = object + ".parts"@;
    assert(dir.last() == 's');
    let p = stored_path(root, bucket, key, n);
    assert(p == dir.push('/') + part_name(n as int));
    assert(p =~= object + ".parts/"@ + part_name(n as int));
    assert(p.subrange(0, dir.push('/').len() as int) =~= dir.push('/'));
}

/// Part numbers ascend.
pub open spec fn parts_ascend(parts: Seq<PartRefView>) -> bool {
    forall|i: int, j: int|
        0 <= i < j < parts.len() ==> (#[trigger] parts[i]).part_number < (
        #[trigger] parts[j]).part_number
}

/// Every uploaded part is there.
pub open spec fn parts_are_there(
    disk: PlainDisk,
    root: Seq<char>,
    bucket: Seq<char>,
    id: Seq<char>,
    parts: Seq<PartRefView>,
) -> bool {
    forall|i: int|
        0 <= i < parts.len() ==> disk.dom().contains(
            uploaded_path(root, bucket, id, (#[trigger] parts[i]).part_number),
        )
}

/// The parts are moved, each with what it holds.
proof fn lemma_store(
    disk: PlainDisk,
    root: Seq<char>,
    bucket: Seq<char>,
    id: Seq<char>,
    key: Seq<char>,
    parts: Seq<PartRefView>,
)
    requires
        is_bucket_name(bucket),
        is_plain_key(key),
        id.len() > 0,
        id[0] != '/',
        id.last() != '/',
        parts_ascend(parts),
        parts_are_there(disk, root, bucket, id, parts),
    ensures
        ({
            let after = after_steps(disk, root, bucket, store_steps(id, key, parts));
            &&& forall|i: int|
                0 <= i < parts.len() ==> {
                    let to = stored_path(root, bucket, key, (#[trigger] parts[i]).part_number);
                    after.dom().contains(to) && after[to] == disk[uploaded_path(
                        root,
                        bucket,
                        id,
                        parts[i].part_number,
                    )]
                }
            &&& forall|p: Seq<char>|
                (forall|i: int|
                    0 <= i < parts.len() ==> p != stored_path(
                        root,
                        bucket,
                        key,
                        (#[trigger] parts[i]).part_number,
                    ) && p != uploaded_path(root, bucket, id, parts[i].part_number)) 
                    ==> #[trigger] same_file(after, disk, p)
        }),
    decreases parts.len(),
{
    let steps = store_steps(id, key, parts);
    if parts.len() > 0 {
        let front = parts.drop_last();
        let n = parts.last().part_number;
        assert forall|i: int, j: int| 0 <= i < j < front.len() implies (
        #[trigger] front[i]).part_number < (#[trigger] front[j]).part_number by {
            assert(front[i] == parts[i] && front[j] == parts[j]);
        }
        assert forall|i: int| 0 <= i < front.len() implies disk.dom().contains(
            uploaded_path(root, bucket, id, (#[trigger] front[i]).part_number),
        ) by {
            assert(front[i] == parts[i]);
        }
        lemma_store(disk, root, bucket, id, key, front);
        let mid = after_steps(disk, root, bucket, store_steps(id, key, front));
        let after = after_steps(disk, root, bucket, steps);
        assert(steps.drop_last() =~= store_steps(id, key, front));
        let from = uploaded_path(root, bucket, id, n);
        let to = stored_path(root, bucket, key, n);
        assert(after == mid.remove(from).insert(to, mid[from]));
        assert(parts[parts.len() - 1].part_number == n);
        assert forall|i: int| 0 <= i < front.len() implies {
            &&& from != stored_path(root, bucket, key, (#[trigger] front[i]).part_number)
            &&& from != uploaded_path(root, bucket, id, front[i].part_number)
            &&& to != stored_path(root, bucket, key, front[i].part_number)
            &&& to != uploaded_path(root, bucket, id, front[i].part_number)
        } by {
            let m = front[i].part_number;
            assert(parts[i].part_number == m);
            lemma_apart(root, bucket, id, key, n, m);
            lemma_apart(root, bucket, id, key, m, n);
        }
        lemma_apart(root, bucket, id, key, n, n);
        assert(disk.dom().contains(from));
        assert(same_file(mid, disk, from));
        assert forall|i: int| 0 <= i < parts.len() implies {
            let dst = stored_path(root, bucket, key, (#[trigger] parts[i]).part_number);
            after.dom().contains(dst) && after[dst] == disk[uploaded_path(
                root,
                bucket,
                id,
                parts[i].part_number,
            )]
        } by {
            if i < front.len() {
                assert(front[i] == parts[i]);
            }
        }
        assert forall|p: Seq<char>|
            (forall|i: int|
                0 <= i < parts.len() ==> p != stored_path(
                    root,
                    bucket,
                    key,
                    (#[trigger] parts[i]).part_number,
                ) && p != uploaded_path(root, bucket, id, parts[i].part_number)) implies #[trigger] same_file(
            after,
            disk,
            p,
        ) by {
            assert(p != to && p != from);
            assert forall|i: int| 0 <= i < front.len() implies p != stored_path(
                root,
                bucket,
                key,
                (#[trigger] front[i]).part_number,
            ) && p != uploaded_path(root, bucket, id, front[i].part_number) by {
                assert(front[i] == parts[i]);
            }
            assert(same_file(mid, disk, p));
        }
    }
}

/// An uploaded part is no stored one, and parts with different numbers have different paths.
proof fn lemma_apart(
    root: Seq<char>,
    bucket: Seq<char>,
    id: Seq<char>,
    key: Seq<char>,
    n: i32,
    m: i32,
)
    requires
        is_bucket_name(bucket),
        is_plain_key(key),
        id.len() > 0,
        id[0] != '/',
        id.last() != '/',
    ensures
        uploaded_path(root, bucket, id, n) != stored_path(root, bucket, key, m),
        n != m ==> uploaded_path(root, bucket, id, n) != uploaded_path(root, bucket, id, m),
        n != m ==> stored_path(root, bucket, key, n) != stored_path(root, bucket, key, m),
{
    let dir = place_path(root, bucket, Place::PlainUpload { id });
    let object = object_path(root, bucket, key);
    lemma_uploaded_path(root, bucket, id, n);
    lemma_uploaded_path(root, bucket, id, m);
    lemma_stored_path(root, bucket, key, n);
    lemma_stored_path(root, bucket, key, m);
    let x = "/parts/"@ + part_name(n as int);
    assert(uploaded_path(root, bucket, id, n) =~= dir + x);
    lemma_upload_paths(root, bucket, id, x);
    let y = ".parts/"@ + part_name(m as int);
    assert(stored_path(root, bucket, key, m) =~= object + y);
    lemma_bucket_paths(root, bucket, key, y);
    if n != m {
        part_names_differ(n as int, m as int);
        lemma_suffixes(dir + "/parts/"@, part_name(n as int), part_name(m as int));
        lemma_suffixes(object + ".parts/"@, part_name(n as int), part_name(m as int));
    }
}

/// What a completion does: once all its steps are done, the sidecar holds the headers with the
/// parts, each part that it names holds what was uploaded for it, no other part is there, nothing of
/// the upload is left, and nothing else has changed.
pub proof fn completion_moves_the_parts(
    disk: PlainDisk,
    root: Seq<char>,
    bucket: Seq<char>,
    id: Seq<char>,
    key: Seq<char>,
    parts: Seq<PartRefView>,
    metadata: ObjectMetadataView,
)
    requires
        is_bucket_name(bucket),
        is_plain_key(key),
        is_canonical_uuid(id),
        parts_ascend(parts),
        parts_are_there(disk, root, bucket, id, parts),
        forall|i: int|
            0 <= i < parts.len() ==> (#[trigger] parts[i]).path == stored_path(
                root,
                bucket,
                key,
                parts[i].part_number,
            ),
    ensures
        ({
            let after = after_steps(
                disk,
                root,
                bucket,
                complete_steps(id, key, parts, metadata),
            );
            &&& after.dom().contains(sidecar_path(root, bucket, key))
            &&& after[sidecar_path(root, bucket, key)] == Content::Sidecar(metadata)
            &&& forall|i: int|
                0 <= i < parts.len() ==> after.dom().contains((#[trigger] parts[i]).path)
                    && after[parts[i].path] == disk[uploaded_path(
                    root,
                    bucket,
                    id,
                    parts[i].part_number,
                )]
            &&& forall|p: Seq<char>|
                is_below(p, object_path(root, bucket, key) + ".parts"@) && #[trigger]
                    after.dom().contains(p) ==> exists|i: int|
                    0 <= i < parts.len() && (#[trigger] parts[i]).path == p
            &&& forall|p: Seq<char>|
                is_below(p, place_path(root, bucket, Place::PlainUpload { id })) ==> !(
                #[trigger] after.dom().contains(p))
            &&& forall|p: Seq<char>|
                !belongs_to(p, root, bucket, key, Seq::empty()) && !is_below(
                    p,
                    place_path(root, bucket, Place::PlainUpload { id }),
                ) ==> #[trigger] same_file(after, disk, p)
        }),
{
    let steps = complete_steps(id, key, parts, metadata);
    let object = object_path(root, bucket, key);
    let store = store_steps(id, key, parts);
    let opening = seq![steps[0], steps[1], steps[2]];
    let mark = seq![steps[3 + store.len() as int]];
    let sidecar = sidecar_steps(key, metadata);
    assert(sidecar.len() == 4);
    let closing = seq![steps[steps.len() - 2], steps[steps.len() - 1]];
    assert(steps =~= opening + store + mark + sidecar + closing);
    lemma_after_both(disk, root, bucket, opening, store);
    lemma_after_both(disk, root, bucket, opening + store, mark);
    lemma_after_both(disk, root, bucket, opening + store + mark, sidecar);
    lemma_after_both(disk, root, bucket, opening + store + mark + sidecar, closing);
    reveal_with_fuel(after_steps, 4);
    assert(opening.drop_last().drop_last().drop_last() =~= Seq::empty());
    assert(mark.drop_last() =~= Seq::empty());
    assert(closing.drop_last().drop_last() =~= Seq::empty());
    let d0 = after_steps(disk, root, bucket, opening);
    let dir = object + ".parts"@;
    assert(d0 == disk.remove_keys(Set::new(|p: Seq<char>| is_below(p, dir))));
    assert(id.len() == 36 && id[0] != '/' && id.last() != '/') by {
        lemma_uuid_edges(id);
    }
    let upload = place_path(root, bucket, Place::PlainUpload { id });
    assert forall|i: int| 0 <= i < parts.len() implies d0.dom().contains(
        uploaded_path(root, bucket, id, (#[trigger] parts[i]).part_number),
    ) && d0[uploaded_path(root, bucket, id, parts[i].part_number)] == disk[uploaded_path(
        root,
        bucket,
        id,
        parts[i].part_number,
    )] by {
        let n = parts[i].part_number;
        let p = uploaded_path(root, bucket, id, n);
        lemma_uploaded_path(root, bucket, id, n);
        assert(p =~= upload + ("/parts/"@ + part_name(n as int)));
        lemma_upload_paths(root, bucket, id, "/parts/"@ + part_name(n as int));
        if is_below(p, dir) {
            let r = root_prefix(root).len() as int;
            lemma_bucket_paths(root, bucket, key, ".parts"@);
            assert(dir.push('/')[r] == p.subrange(0, dir.len() as int + 1)[r]);
        }
    }
    lemma_store(d0, root, bucket, id, key, parts);
    let d1 = after_steps(d0, root, bucket, store);
    let d2 = after_steps(d1, root, bucket, mark);
    assert(d2 == d1.insert(object, Content::Bytes(Seq::empty())));
    lemma_sidecar(d2, root, bucket, key, metadata);
    let d3 = after_steps(d2, root, bucket, sidecar);
    let after = after_steps(d3, root, bucket, closing);
    assert(after == d3.remove_keys(Set::new(|p: Seq<char>| is_below(p, upload))));
    lemma_known_suffixes(object, Seq::empty());
    lemma_not_among_uploads(root, bucket, id, key, META_SUFFIX@);
    assert forall|i: int| 0 <= i < parts.len() implies after.dom().contains(
        (#[trigger] parts[i]).path,
    ) && after[parts[i].path] == disk[uploaded_path(root, bucket, id, parts[i].part_number)] by {
        let n = parts[i].part_number;
        let p = stored_path(root, bucket, key, n);
        lemma_stored_path(root, bucket, key, n);
        assert(p =~= object + (".parts/"@ + part_name(n as int)));
        lemma_not_among_uploads(root, bucket, id, key, ".parts/"@ + part_name(n as int));
        assert(p != object && p != object + META_SUFFIX@ && p != object + ".s3meta.tmp"@);
    }
    assert forall|i: int| 0 <= i < parts.len() implies is_below(
        uploaded_path(root, bucket, id, (#[trigger] parts[i]).part_number),
        upload,
    ) && !is_below(uploaded_path(root, bucket, id, parts[i].part_number), dir) && is_below(
        stored_path(root, bucket, key, parts[i].part_number),
        dir,
    ) by {
        let n = parts[i].part_number;
        lemma_uploaded_path(root, bucket, id, n);
        lemma_stored_path(root, bucket, key, n);
        let p = uploaded_path(root, bucket, id, n);
        reveal_strlit("/parts/");
        assert(p.subrange(0, upload.len() as int + 1) =~= upload.push('/'));
        assert(d0.dom().contains(p));
    }
    assert forall|p: Seq<char>| is_below(p, dir) && #[trigger] after.dom().contains(p) implies exists|
        i: int,
    |
        0 <= i < parts.len() && (#[trigger] parts[i]).path == p by {
        assert(d1.dom().contains(p));
        if forall|i: int| 0 <= i < parts.len() ==> (#[trigger] parts[i]).path != p {
            assert forall|i: int| 0 <= i < parts.len() implies p != stored_path(
                root,
                bucket,
                key,
                (#[trigger] parts[i]).part_number,
            ) && p != uploaded_path(root, bucket, id, parts[i].part_number) by {
                assert(parts[i].path != p);
            }
            assert(same_file(d1, d0, p));
        }
    }
    assert forall|p: Seq<char>|
        !belongs_to(p, root, bucket, key, Seq::empty()) && !is_below(p, upload) implies #[trigger] same_file(
        after,
        disk,
        p,
    ) by {
        assert forall|i: int| 0 <= i < parts.len() implies p != stored_path(
            root,
            bucket,
            key,
            (#[trigger] parts[i]).part_number,
        ) && p != uploaded_path(root, bucket, id, parts[i].part_number) by {
            assert(is_below(stored_path(root, bucket, key, parts[i].part_number), dir));
        }
        assert(same_file(d1, d0, p));
        assert(same_file(d0, disk, p));
    }
}

proof fn lemma_uuid_edges(id: Seq<char>)
    requires
        is_canonical_uuid(id),
    ensures
        id.len() == 36,
        id[0] != '/',
        id.last() != '/',
{
}

/// A file of an object does not lie below the directory of an upload.
proof fn lemma_not_among_uploads(
    root: Seq<char>,
    bucket: Seq<char>,
    id: Seq<char>,
    key: Seq<char>,
    tail: Seq<char>,
)
    requires
        is_bucket_name(bucket),
        is_plain_key(key),
        id.len() > 0,
        id[0] != '/',
    ensures
        !is_below(
            object_path(root, bucket, key) + tail,
            place_path(root, bucket, Place::PlainUpload { id }),
        ),
{
    let p = object_path(root, bucket, key) + tail;
    let dir = place_path(root, bucket, Place::PlainUpload { id });
    lemma_bucket_paths(root, bucket, key, tail);
    lemma_upload_paths(root, bucket, id, seq!['/']);
    let r = root_prefix(root).len() as int;
    assert(dir.push('/') =~= dir + seq!['/']);
    if is_below(p, dir) {
        assert(dir.push('/')[r] == p.subrange(0, dir.len() as int + 1)[r]);
    }
}

/// The record of an upload lies below the directory of the upload.
pub proof fn lemma_record_path(root: Seq<char>, bucket: Seq<char>, id: Seq<char>)
    requires
        is_canonical_uuid(id),
    ensures
        is_below(
            place_path(root, bucket, Place::PlainUploadFile { id, name: RECORD_FILE@ }),
            place_path(root, bucket, Place::PlainUpload { id }),
        ),
{
    reveal_strlit("meta.json");
    lemma_uuid_edges(id);
    let dir = place_path(root, bucket, Place::PlainUpload { id });
    let p = place_path(root, bucket, Place::PlainUploadFile { id, name: RECORD_FILE@ });
    assert(dir.last() == id.last());
    assert(p =~= dir.push('/') + RECORD_FILE@);
    assert(p.subrange(0, dir.len() as int + 1) =~= dir.push('/'));
}

} // verus!
