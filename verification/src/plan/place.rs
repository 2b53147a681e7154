//! The places on disk that the store works with, and their paths.

use vstd::prelude::*;
use crate::blob::{blob_dirs, blob_location, blob_path, fsync_blob_dir, BLOBS_DIR};
use crate::manifest::{
    manifest_location, manifest_path, ARRIVING_DIR, CURRENT_DIR, DELETED_DIR,
};
use crate::path::{
    inner_components, join_path, path_inner_components, path_join, path_join_all,
};
use crate::text::{concat, owned, pieces, split, texts};

verus! {

/// A place on disk. Places of a bucket are those of the bucket that the task works on.
#[derive(Debug)]
pub enum Place<T> {
    /// The data root.
    DataRoot,
    /// The directory of the bucket.
    Bucket,
    /// The tree of live manifests.
    Current,
    /// Uploads in progress and staged manifests.
    Arriving,
    /// The blobs.
    Blobs,
    /// The reclaim journals.
    Deleted,
    /// The live manifest of a key.
    Manifest { key: T },
    /// The directory that the first `depth` segments of a key name in the tree of manifests.
    KeyDir { key: T, depth: usize },
    /// A blob.
    Blob { id: T },
    /// The directory that a blob lies in.
    BlobInner { id: T },
    /// The directory above that.
    BlobOuter { id: T },
    /// A staged manifest.
    Staged { name: T },
    /// A reclaim journal, or one that is being written.
    Journal { name: T },
    /// The directory of an upload in progress.
    Upload { id: T },
    /// A file or directory of an upload.
    UploadFile { id: T, name: T },
    /// A part reference of an upload.
    PartFile { id: T, name: T },
    /// A file that was found in the tree of manifests.
    CurrentFile { rel: T },
    /// A file that was found among the blobs.
    BlobFile { rel: T },
    /// The data file of a key in the plain layout.
    Object { key: T },
    /// A file or directory next to it, whose name goes on with `suffix`.
    ObjectSide { key: T, suffix: T },
    /// A stored part of a key in the plain layout.
    StoredPart { key: T, name: T },
    /// The directory that the first `depth` components of a key name in the plain layout.
    ObjectDir { key: T, depth: usize },
    /// The upload directory inside a bucket in the plain layout.
    BucketUploads,
    /// The upload directory of the plain layout.
    Uploads,
    /// The directory of an upload in the plain layout.
    PlainUpload { id: T },
    /// A file or directory of such an upload.
    PlainUploadFile { id: T, name: T },
    /// A part of such an upload.
    PlainPart { id: T, name: T },
}

/// A place named by mathematical text.
pub type PlaceView = Place<Seq<char>>;

impl View for Place<String> {
    type V = Place<Seq<char>>;

    open spec fn view(&self) -> Place<Seq<char>> {
        match self {
            Place::DataRoot => Place::DataRoot,
            Place::Bucket => Place::Bucket,
            Place::Current => Place::Current,
            Place::Arriving => Place::Arriving,
            Place::Blobs => Place::Blobs,
            Place::Deleted => Place::Deleted,
            Place::Manifest { key } => Place::Manifest { key: key@ },
            Place::KeyDir { key, depth } => Place::KeyDir { key: key@, depth: *depth },
            Place::Blob { id } => Place::Blob { id: id@ },
            Place::BlobInner { id } => Place::BlobInner { id: id@ },
            Place::BlobOuter { id } => Place::BlobOuter { id: id@ },
            Place::Staged { name } => Place::Staged { name: name@ },
            Place::Journal { name } => Place::Journal { name: name@ },
            Place::Upload { id } => Place::Upload { id: id@ },
            Place::UploadFile { id, name } => Place::UploadFile { id: id@, name: name@ },
            Place::PartFile { id, name } => Place::PartFile { id: id@, name: name@ },
            Place::CurrentFile { rel } => Place::CurrentFile { rel: rel@ },
            Place::BlobFile { rel } => Place::BlobFile { rel: rel@ },
            Place::Object { key } => Place::Object { key: key@ },
            Place::ObjectSide { key, suffix } => Place::ObjectSide { key: key@, suffix: suffix@ },
            Place::StoredPart { key, name } => Place::StoredPart { key: key@, name: name@ },
            Place::ObjectDir { key, depth } => Place::ObjectDir { key: key@, depth: *depth },
            Place::BucketUploads => Place::BucketUploads,
            Place::Uploads => Place::Uploads,
            Place::PlainUpload { id } => Place::PlainUpload { id: id@ },
            Place::PlainUploadFile { id, name } => Place::PlainUploadFile { id: id@, name: name@ },
            Place::PlainPart { id, name } => Place::PlainPart { id: id@, name: name@ },
        }
    }
}

impl Clone for Place<String> {
    fn clone(&self) -> (r: Place<String>)
        ensures
            r@ == self@,
    {
        match self {
            Place::DataRoot => Place::DataRoot,
            Place::Bucket => Place::Bucket,
            Place::Current => Place::Current,
            Place::Arriving => Place::Arriving,
            Place::Blobs => Place::Blobs,
            Place::Deleted => Place::Deleted,
            Place::Manifest { key } => Place::Manifest { key: key.clone() },
            Place::KeyDir { key, depth } => Place::KeyDir { key: key.clone(), depth: *depth },
            Place::Blob { id } => Place::Blob { id: id.clone() },
            Place::BlobInner { id } => Place::BlobInner { id: id.clone() },
            Place::BlobOuter { id } => Place::BlobOuter { id: id.clone() },
            Place::Staged { name } => Place::Staged { name: name.clone() },
            Place::Journal { name } => Place::Journal { name: name.clone() },
            Place::Upload { id } => Place::Upload { id: id.clone() },
            Place::UploadFile { id, name } => Place::UploadFile { id: id.clone(), name: name.clone() },
            Place::PartFile { id, name } => Place::PartFile { id: id.clone(), name: name.clone() },
            Place::CurrentFile { rel } => Place::CurrentFile { rel: rel.clone() },
            Place::BlobFile { rel } => Place::BlobFile { rel: rel.clone() },
            Place::Object { key } => Place::Object { key: key.clone() },
            Place::ObjectSide { key, suffix } => Place::ObjectSide { key: key.clone(), suffix: suffix.clone() },
            Place::StoredPart { key, name } => Place::StoredPart { key: key.clone(), name: name.clone() },
            Place::ObjectDir { key, depth } => Place::ObjectDir { key: key.clone(), depth: *depth },
            Place::BucketUploads => Place::BucketUploads,
            Place::Uploads => Place::Uploads,
            Place::PlainUpload { id } => Place::PlainUpload { id: id.clone() },
            Place::PlainUploadFile { id, name } => Place::PlainUploadFile { id: id.clone(), name: name.clone() },
            Place::PlainPart { id, name } => Place::PlainPart { id: id.clone(), name: name.clone() },
        }
    }
}

/// The first `n` elements, or all of them where there are fewer.
pub open spec fn first_of(all: Seq<Seq<char>>, n: int) -> Seq<Seq<char>> {
    if n <= all.len() {
        all.take(n)
    } else {
        all
    }
}

pub open spec fn bucket_root(root: Seq<char>, bucket: Seq<char>) -> Seq<char> {
    path_join(root, bucket)
}

pub open spec fn current_root(root: Seq<char>, bucket: Seq<char>) -> Seq<char> {
    path_join(bucket_root(root, bucket), CURRENT_DIR@)
}

pub open spec fn arriving_root(root: Seq<char>, bucket: Seq<char>) -> Seq<char> {
    path_join(bucket_root(root, bucket), ARRIVING_DIR@)
}

pub open spec fn blobs_root(root: Seq<char>, bucket: Seq<char>) -> Seq<char> {
    path_join(bucket_root(root, bucket), BLOBS_DIR@)
}

pub open spec fn deleted_root(root: Seq<char>, bucket: Seq<char>) -> Seq<char> {
    path_join(bucket_root(root, bucket), DELETED_DIR@)
}

/// The path of a place.
pub open spec fn place_path(root: Seq<char>, bucket: Seq<char>, place: PlaceView) -> Seq<char> {
    match place {
        Place::DataRoot => root,
        Place::Bucket => bucket_root(root, bucket),
        Place::Current => current_root(root, bucket),
        Place::Arriving => arriving_root(root, bucket),
        Place::Blobs => blobs_root(root, bucket),
        Place::Deleted => deleted_root(root, bucket),
        Place::Manifest { key } => manifest_location(current_root(root, bucket), key),
        Place::KeyDir { key, depth } => path_join_all(current_root(root, bucket), first_of(split(key, '/'), depth as int)),
        Place::Blob { id } => blob_location(bucket_root(root, bucket), id),
        Place::BlobInner { id } => blob_dirs(bucket_root(root, bucket), id)[0],
        Place::BlobOuter { id } => blob_dirs(bucket_root(root, bucket), id)[1],
        Place::Staged { name } => path_join(arriving_root(root, bucket), name),
        Place::Journal { name } => path_join(deleted_root(root, bucket), name),
        Place::Upload { id } => path_join(arriving_root(root, bucket), id),
        Place::UploadFile { id, name } => path_join(path_join(arriving_root(root, bucket), id), name),
        Place::PartFile { id, name } => path_join(path_join(path_join(arriving_root(root, bucket), id), "parts"@), name),
        Place::CurrentFile { rel } => path_join(current_root(root, bucket), rel),
        Place::BlobFile { rel } => path_join(blobs_root(root, bucket), rel),
        Place::Object { key } => path_join(bucket_root(root, bucket), key),
        Place::ObjectSide { key, suffix } => path_join(bucket_root(root, bucket), key) + suffix,
        Place::StoredPart { key, name } => path_join(path_join(bucket_root(root, bucket), key) + ".parts"@, name),
        Place::ObjectDir { key, depth } => path_join_all(bucket_root(root, bucket), first_of(inner_components(key), depth as int)),
        Place::BucketUploads => path_join(bucket_root(root, bucket), ".multipart"@),
        Place::Uploads => path_join(root, ".multipart"@),
        Place::PlainUpload { id } => path_join(path_join(root, ".multipart"@), id),
        Place::PlainUploadFile { id, name } => path_join(path_join(path_join(root, ".multipart"@), id), name),
        Place::PlainPart { id, name } => path_join(path_join(path_join(path_join(root, ".multipart"@), id), "parts"@), name),
    }
}

/// A directory of the bucket.
fn below(root: &str, bucket: &str, dir: &str) -> (r: String)
    ensures
        r@ == path_join(bucket_root(root@, bucket@), dir@),
{
    let base = join_path(root, bucket);
    join_path(base.as_str(), dir)
}

/// `base` with the first `depth` of the given components below it.
fn join_first(base: &str, comps: &Vec<String>, depth: usize) -> (r: String)
    ensures
        r@ == path_join_all(base@, first_of(texts(comps@), depth as int)),
{
    let mut out: String = base.to_owned();
    let ghost all = texts(comps@);
    let mut i: usize = 0;
    assert(all.take(0) =~= Seq::empty());
    while i < depth && i < comps.len()
        invariant
            i <= depth,
            i <= comps@.len(),
            all == texts(comps@),
            out@ == path_join_all(base@, all.take(i as int)),
        decreases depth - i,
    {
        assert(all.take(i + 1).drop_last() =~= all.take(i as int));
        out = join_path(out.as_str(), comps[i].as_str());
        i = i + 1;
    }
    assert(all.take(all.len() as int) =~= all);
    out
}

/// The path of a place below the data root `root`, for the given bucket.
pub fn locate(root: &str, bucket: &str, place: &Place<String>) -> (r: String)
    ensures
        r@ == place_path(root@, bucket@, place@),
{
    match place {
        Place::DataRoot => owned(root),
        Place::Bucket => join_path(root, bucket),
        Place::Current => below(root, bucket, CURRENT_DIR),
        Place::Arriving => below(root, bucket, ARRIVING_DIR),
        Place::Blobs => below(root, bucket, BLOBS_DIR),
        Place::Deleted => below(root, bucket, DELETED_DIR),
        Place::Manifest { key } => {
            let base = below(root, bucket, CURRENT_DIR);
            manifest_path(base.as_str(), key.as_str())
        },
        Place::KeyDir { key, depth } => {
            let base = below(root, bucket, CURRENT_DIR);
            let segs = pieces(key.as_str(), '/');
            join_first(base.as_str(), &segs, *depth)
        },
        Place::Blob { id } => {
            let base = join_path(root, bucket);
            blob_path(base.as_str(), id.as_str())
        },
        Place::BlobInner { id } => {
            let base = join_path(root, bucket);
            let mut dirs = fsync_blob_dir(base.as_str(), id.as_str());
            assert(texts(dirs@).len() == 3);
            assert(texts(dirs@)[0] == dirs@[0]@);
            dirs.swap_remove(0)
        },
        Place::BlobOuter { id } => {
            let base = join_path(root, bucket);
            let mut dirs = fsync_blob_dir(base.as_str(), id.as_str());
            assert(texts(dirs@).len() == 3);
            assert(texts(dirs@)[1] == dirs@[1]@);
            dirs.swap_remove(1)
        },
        Place::Staged { name } => {
            let base = below(root, bucket, ARRIVING_DIR);
            join_path(base.as_str(), name.as_str())
        },
        Place::Journal { name } => {
            let base = below(root, bucket, DELETED_DIR);
            join_path(base.as_str(), name.as_str())
        },
        Place::Upload { id } => {
            let base = below(root, bucket, ARRIVING_DIR);
            join_path(base.as_str(), id.as_str())
        },
        Place::UploadFile { id, name } => {
            let base = below(root, bucket, ARRIVING_DIR);
            let dir = join_path(base.as_str(), id.as_str());
            join_path(dir.as_str(), name.as_str())
        },
        Place::PartFile { id, name } => {
            let base = below(root, bucket, ARRIVING_DIR);
            let dir = join_path(base.as_str(), id.as_str());
            let parts = join_path(dir.as_str(), "parts");
            join_path(parts.as_str(), name.as_str())
        },
        Place::CurrentFile { rel } => {
            let base = below(root, bucket, CURRENT_DIR);
            join_path(base.as_str(), rel.as_str())
        },
        Place::BlobFile { rel } => {
            let base = below(root, bucket, BLOBS_DIR);
            join_path(base.as_str(), rel.as_str())
        },
        Place::Object { key } => {
            let base = join_path(root, bucket);
            join_path(base.as_str(), key.as_str())
        },
        Place::ObjectSide { key, suffix } => {
            let base = join_path(root, bucket);
            let object = join_path(base.as_str(), key.as_str());
            concat(object.as_str(), suffix.as_str())
        },
        Place::StoredPart { key, name } => {
            let base = join_path(root, bucket);
            let object = join_path(base.as_str(), key.as_str());
            let dir = concat(object.as_str(), ".parts");
            join_path(dir.as_str(), name.as_str())
        },
        Place::ObjectDir { key, depth } => {
            let base = join_path(root, bucket);
            let comps = path_inner_components(key.as_str());
            join_first(base.as_str(), &comps, *depth)
        },
        Place::BucketUploads => {
            let base = join_path(root, bucket);
            join_path(base.as_str(), ".multipart")
        },
        Place::Uploads => join_path(root, ".multipart"),
        Place::PlainUpload { id } => {
            let base = join_path(root, ".multipart");
            join_path(base.as_str(), id.as_str())
        },
        Place::PlainUploadFile { id, name } => {
            let base = join_path(root, ".multipart");
            let dir = join_path(base.as_str(), id.as_str());
            join_path(dir.as_str(), name.as_str())
        },
        Place::PlainPart { id, name } => {
            let base = join_path(root, ".multipart");
            let dir = join_path(base.as_str(), id.as_str());
            let parts = join_path(dir.as_str(), "parts");
            join_path(parts.as_str(), name.as_str())
        },
    }
}

} // verus!
