//! What the store asks of the disk: calls that change it, and questions about it.

use vstd::prelude::*;
use crate::blob::BlobInfo;
use crate::cas::records::{Journal, JournalView, PartRefFile, PartRefFileView};
use crate::manifest::{Manifest, ManifestView};
use crate::metadata::{ObjectMetadata, ObjectMetadataView};
use crate::plan::place::{Place, PlaceView};
use crate::types::{
    BucketInfo, BucketInfoView, GetObjectResult, GetObjectView, IoError, IoErrorKind,
    ListObjectsOutput, ListObjectsView, MultipartUpload, MultipartUploadView, PartInfo,
    PartInfoView, StorageError,
};

verus! {

/// A change of the disk or a test of it, which succeeds or fails.
#[derive(Debug)]
pub enum Call {
    /// Take a lock of the bucket table; it is held until the task ends.
    LockBucket { shard: usize, exclusive: bool },
    /// Take a lock of the key table; it is held until the task ends or `UnlockKey`.
    LockKey { shard: usize, exclusive: bool },
    /// Give back the key lock.
    UnlockKey,
    /// Fail if the deepest existing directory above `at` resolves to a place outside the data root.
    CheckContained { at: Place<String> },
    /// Fail if a component of `at` below the bucket is a symbolic link.
    CheckBeneath { at: Place<String> },
    /// Fail unless `at` is a directory; a link to one is none.
    CheckDir { at: Place<String> },
    /// Fail unless `at` is a directory or a link to one.
    CheckLinkedDir { at: Place<String> },
    /// Fail unless there is something at `at`; links are followed.
    CheckExists { at: Place<String> },
    /// Fail unless `at` is a regular file of that size.
    CheckFile { at: Place<String>, size: u64 },
    /// Create one directory.
    CreateDir { at: Place<String> },
    /// Create a directory and those above it, as far as they are missing.
    CreateDirAll { at: Place<String> },
    /// Make the entries of a directory durable.
    SyncDir { at: Place<String> },
    /// Remove a file.
    RemoveFile { at: Place<String> },
    /// Remove a file if there is something at `at`, where links are followed; fail as missing if
    /// nothing is there or that cannot be told. A file that is gone by then counts as removed.
    RemoveExisting { at: Place<String> },
    /// Remove an empty directory.
    RemoveDir { at: Place<String> },
    /// Remove a directory with all that it holds.
    RemoveDirAll { at: Place<String> },
    /// Rename `src` to `dst`, which it replaces, in one step.
    Rename { src: Place<String>, dst: Place<String> },
    /// Create the directory of `dst`, then rename `src` to it.
    Move { src: Place<String>, dst: Place<String> },
    /// Write a manifest, and make its bytes durable if `sync`.
    WriteManifest { at: Place<String>, manifest: Manifest, sync: bool },
    /// Write a journal to a new file.
    WriteJournal { at: Place<String>, journal: Journal, sync: bool },
    /// Write the record of an upload.
    WriteUpload { at: Place<String>, upload: MultipartUpload, sync: bool },
    /// Write the record of a part.
    WritePartRef { at: Place<String>, part: PartRefFile, sync: bool },
    /// Write a small file.
    WriteBytes { at: Place<String>, data: Vec<u8>, sync: bool },
    /// Write a sidecar of the plain layout, and make its bytes durable if `sync`.
    WriteMetadata { at: Place<String>, metadata: ObjectMetadata, sync: bool },
}

#[verifier::ext_equal]
pub enum CallView {
    LockBucket { shard: usize, exclusive: bool },
    LockKey { shard: usize, exclusive: bool },
    UnlockKey,
    CheckContained { at: PlaceView },
    CheckBeneath { at: PlaceView },
    CheckDir { at: PlaceView },
    CheckLinkedDir { at: PlaceView },
    CheckExists { at: PlaceView },
    CheckFile { at: PlaceView, size: u64 },
    CreateDir { at: PlaceView },
    CreateDirAll { at: PlaceView },
    SyncDir { at: PlaceView },
    RemoveFile { at: PlaceView },
    RemoveExisting { at: PlaceView },
    RemoveDir { at: PlaceView },
    RemoveDirAll { at: PlaceView },
    Rename { src: PlaceView, dst: PlaceView },
    Move { src: PlaceView, dst: PlaceView },
    WriteManifest { at: PlaceView, manifest: ManifestView, sync: bool },
    WriteJournal { at: PlaceView, journal: JournalView, sync: bool },
    WriteUpload { at: PlaceView, upload: MultipartUploadView, sync: bool },
    WritePartRef { at: PlaceView, part: PartRefFileView, sync: bool },
    WriteBytes { at: PlaceView, data: Seq<u8>, sync: bool },
    WriteMetadata { at: PlaceView, metadata: ObjectMetadataView, sync: bool },
}

impl View for Call {
    type V = CallView;

    open spec fn view(&self) -> CallView {
        match self {
            Call::LockBucket { shard, exclusive } => CallView::LockBucket { shard: *shard, exclusive: *exclusive },
            Call::LockKey { shard, exclusive } => CallView::LockKey { shard: *shard, exclusive: *exclusive },
            Call::UnlockKey => CallView::UnlockKey,
            Call::CheckContained { at } => CallView::CheckContained { at: at@ },
            Call::CheckBeneath { at } => CallView::CheckBeneath { at: at@ },
            Call::CheckDir { at } => CallView::CheckDir { at: at@ },
            Call::CheckLinkedDir { at } => CallView::CheckLinkedDir { at: at@ },
            Call::CheckExists { at } => CallView::CheckExists { at: at@ },
            Call::CheckFile { at, size } => CallView::CheckFile { at: at@, size: *size },
            Call::CreateDir { at } => CallView::CreateDir { at: at@ },
            Call::CreateDirAll { at } => CallView::CreateDirAll { at: at@ },
            Call::SyncDir { at } => CallView::SyncDir { at: at@ },
            Call::RemoveFile { at } => CallView::RemoveFile { at: at@ },
            Call::RemoveExisting { at } => CallView::RemoveExisting { at: at@ },
            Call::RemoveDir { at } => CallView::RemoveDir { at: at@ },
            Call::RemoveDirAll { at } => CallView::RemoveDirAll { at: at@ },
            Call::Rename { src, dst } => CallView::Rename { src: src@, dst: dst@ },
            Call::Move { src, dst } => CallView::Move { src: src@, dst: dst@ },
            Call::WriteManifest { at, manifest, sync } => CallView::WriteManifest { at: at@, manifest: manifest@, sync: *sync },
            Call::WriteJournal { at, journal, sync } => CallView::WriteJournal { at: at@, journal: journal@, sync: *sync },
            Call::WriteUpload { at, upload, sync } => CallView::WriteUpload { at: at@, upload: upload@, sync: *sync },
            Call::WritePartRef { at, part, sync } => CallView::WritePartRef { at: at@, part: part@, sync: *sync },
            Call::WriteBytes { at, data, sync } => CallView::WriteBytes { at: at@, data: data@, sync: *sync },
            Call::WriteMetadata { at, metadata, sync } => CallView::WriteMetadata { at: at@, metadata: metadata@, sync: *sync },
        }
    }
}

/// A question about the disk, which is answered with values.
#[derive(Debug)]
pub enum Question {
    /// Create one directory and say how that went.
    TryCreateDir { at: Place<String> },
    /// Make the entries of a directory durable and say how that went.
    TrySyncDir { at: Place<String> },
    /// Write the request body to the blob `id`.
    StreamBlob { id: String },
    /// Write the request body to a file.
    StreamFile { at: Place<String> },
    /// Read a manifest.
    ReadManifest { at: Place<String> },
    /// Read a journal.
    ReadJournal { at: Place<String> },
    /// Read a sidecar of the plain layout.
    ReadMetadata { at: Place<String> },
    /// Look at the directory of an upload and read its record.
    ProbeUpload { id: String },
    /// Read the record of an upload in the plain layout.
    ReadPlainUpload { id: String },
    /// Read the record of a part.
    ReadPartRef { at: Place<String> },
    /// Read all files in the part directory of an upload.
    ReadPartRefs { id: String },
    /// The modification times of the records of these parts, 0 where there is none.
    RefTimes { id: String, numbers: Vec<u32> },
    /// Open a file and say how long it is.
    OpenFile { at: Place<String> },
    /// The regular files below `at`, or below `instead` if `at` is no directory; paths are relative to `instead`.
    Walk { at: Place<String>, instead: Place<String> },
    /// The regular files below `at`, where no hidden directory is entered; paths are relative to
    /// `at`.
    WalkObjects { at: Place<String> },
    /// The entries of a directory.
    List { at: Place<String> },
    /// The entries of the upload area, up to `limit` directories.
    ScanUploads { limit: usize },
    /// The size and the digest of an uploaded part in the plain layout.
    ProbePlainPart { at: Place<String> },
    /// The files in the part directory of an upload in the plain layout.
    ListPlainParts { id: String },
    /// The records of the uploads in the plain layout.
    ListPlainUploads,
    /// The size, the time and the sidecar of a data file in the plain layout.
    Describe { key: String },
}

#[verifier::ext_equal]
pub enum QuestionView {
    TryCreateDir { at: PlaceView },
    TrySyncDir { at: PlaceView },
    StreamBlob { id: Seq<char> },
    StreamFile { at: PlaceView },
    ReadManifest { at: PlaceView },
    ReadJournal { at: PlaceView },
    ReadMetadata { at: PlaceView },
    ProbeUpload { id: Seq<char> },
    ReadPlainUpload { id: Seq<char> },
    ReadPartRef { at: PlaceView },
    ReadPartRefs { id: Seq<char> },
    RefTimes { id: Seq<char>, numbers: Seq<u32> },
    OpenFile { at: PlaceView },
    Walk { at: PlaceView, instead: PlaceView },
    WalkObjects { at: PlaceView },
    List { at: PlaceView },
    ScanUploads { limit: usize },
    ProbePlainPart { at: PlaceView },
    ListPlainParts { id: Seq<char> },
    ListPlainUploads,
    Describe { key: Seq<char> },
}

impl View for Question {
    type V = QuestionView;

    open spec fn view(&self) -> QuestionView {
        match self {
            Question::TryCreateDir { at } => QuestionView::TryCreateDir { at: at@ },
            Question::TrySyncDir { at } => QuestionView::TrySyncDir { at: at@ },
            Question::StreamBlob { id } => QuestionView::StreamBlob { id: id@ },
            Question::StreamFile { at } => QuestionView::StreamFile { at: at@ },
            Question::ReadManifest { at } => QuestionView::ReadManifest { at: at@ },
            Question::ReadJournal { at } => QuestionView::ReadJournal { at: at@ },
            Question::ReadMetadata { at } => QuestionView::ReadMetadata { at: at@ },
            Question::ProbeUpload { id } => QuestionView::ProbeUpload { id: id@ },
            Question::ReadPlainUpload { id } => QuestionView::ReadPlainUpload { id: id@ },
            Question::ReadPartRef { at } => QuestionView::ReadPartRef { at: at@ },
            Question::ReadPartRefs { id } => QuestionView::ReadPartRefs { id: id@ },
            Question::RefTimes { id, numbers } => QuestionView::RefTimes { id: id@, numbers: numbers@ },
            Question::OpenFile { at } => QuestionView::OpenFile { at: at@ },
            Question::Walk { at, instead } => QuestionView::Walk { at: at@, instead: instead@ },
            Question::WalkObjects { at } => QuestionView::WalkObjects { at: at@ },
            Question::List { at } => QuestionView::List { at: at@ },
            Question::ScanUploads { limit } => QuestionView::ScanUploads { limit: *limit },
            Question::ProbePlainPart { at } => QuestionView::ProbePlainPart { at: at@ },
            Question::ListPlainParts { id } => QuestionView::ListPlainParts { id: id@ },
            Question::ListPlainUploads => QuestionView::ListPlainUploads,
            Question::Describe { key } => QuestionView::Describe { key: key@ },
        }
    }
}

/// What a request that succeeded is answered with.
#[derive(Debug)]
pub enum Outcome {
    /// The request succeeded; there is nothing to report.
    Nothing,
    /// The entity tag of what was stored.
    Etag { etag: String },
    /// The id of a new upload.
    UploadId { id: String },
    /// An object to be read.
    Object { object: GetObjectResult },
    /// The headers of an object.
    Headers { metadata: ObjectMetadata },
    /// A page of a listing.
    Listing { page: ListObjectsOutput },
    /// Uploads in progress.
    Uploads { uploads: Vec<MultipartUpload>, truncated: bool },
    /// The parts of an upload.
    Parts { parts: Vec<PartInfo> },
    /// The buckets.
    Buckets { buckets: Vec<BucketInfo> },
}

#[verifier::ext_equal]
pub enum OutcomeView {
    Nothing,
    Etag { etag: Seq<char> },
    UploadId { id: Seq<char> },
    Object { object: GetObjectView },
    Headers { metadata: ObjectMetadataView },
    Listing { page: ListObjectsView },
    Uploads { uploads: Seq<MultipartUploadView>, truncated: bool },
    Parts { parts: Seq<PartInfoView> },
    Buckets { buckets: Seq<BucketInfoView> },
}

impl View for Outcome {
    type V = OutcomeView;

    open spec fn view(&self) -> OutcomeView {
        match self {
            Outcome::Nothing => OutcomeView::Nothing,
            Outcome::Etag { etag } => OutcomeView::Etag { etag: etag@ },
            Outcome::UploadId { id } => OutcomeView::UploadId { id: id@ },
            Outcome::Object { object } => OutcomeView::Object { object: object@ },
            Outcome::Headers { metadata } => OutcomeView::Headers { metadata: metadata@ },
            Outcome::Listing { page } => OutcomeView::Listing { page: page@ },
            Outcome::Uploads { uploads, truncated } => OutcomeView::Uploads { uploads: upload_views(uploads@), truncated: *truncated },
            Outcome::Parts { parts } => OutcomeView::Parts { parts: part_infos(parts@) },
            Outcome::Buckets { buckets } => OutcomeView::Buckets { buckets: bucket_infos(buckets@) },
        }
    }
}

/// The views of a list of uploads.
pub open spec fn upload_views(v: Seq<MultipartUpload>) -> Seq<MultipartUploadView> {
    Seq::new(v.len(), |i: int| v[i]@)
}

/// The views of a list of parts.
pub open spec fn part_infos(v: Seq<PartInfo>) -> Seq<PartInfoView> {
    Seq::new(v.len(), |i: int| v[i]@)
}

/// The views of a list of buckets.
pub open spec fn bucket_infos(v: Seq<BucketInfo>) -> Seq<BucketInfoView> {
    Seq::new(v.len(), |i: int| v[i]@)
}

/// What kind of thing a directory entry is. Links are not followed.
#[derive(Clone, Copy, PartialEq, Eq, Structural, Debug)]
pub enum EntryKind {
    Directory,
    File,
    Other,
}

/// A directory entry. The kind is missing where it could not be read.
#[derive(Debug)]
pub struct Entry {
    pub name: String,
    pub kind: Option<EntryKind>,
    /// Unix seconds, 0 where unknown.
    pub mtime: i64,
}

/// The state of the directory of an upload.
#[derive(Clone, Copy, PartialEq, Eq, Structural, Debug)]
pub enum DirState {
    /// A real directory inside the data root.
    Present,
    Missing,
    /// A link, no directory, or a directory outside the data root.
    Foreign,
    Failed(IoError),
}

/// What was found of an upload.
#[derive(Debug)]
pub struct UploadProbe {
    pub dir: DirState,
    /// Whether the upload was marked as completed.
    pub completed: bool,
    pub upload: Result<MultipartUpload, IoError>,
}

/// A file in the part directory of an upload; `part` is its contents where they could be read.
#[derive(Debug)]
pub struct RefEntry {
    pub name: String,
    pub part: Option<PartRefFile>,
}

/// A part record as it was stored.
#[derive(Debug)]
pub struct StoredRef {
    pub bytes: Vec<u8>,
    pub blob_id: String,
}

/// An entry of the upload area.
#[derive(Debug)]
pub struct UploadDir {
    pub name: String,
    pub is_dir: bool,
    /// Whether it was marked as completed.
    pub completed: bool,
    /// Whether its record could be read.
    pub readable: bool,
    /// The record, where it could be understood.
    pub upload: Option<MultipartUpload>,
    /// How long ago the record was written, in nanoseconds, where that is known and not in the
    /// future.
    pub age: Option<u128>,
}

/// The digest and the size of a body that was written.
#[derive(Debug)]
pub struct BodyDigest {
    pub digest: Vec<u8>,
    pub size: u64,
}

/// An uploaded part in the plain layout: its size, where it exists, and its digest.
#[derive(Debug)]
pub struct PlainPart {
    pub size: Option<u64>,
    pub digest: Result<Vec<u8>, IoError>,
}

/// A file in the part directory of an upload in the plain layout.
#[derive(Debug)]
pub struct PlainPartEntry {
    pub name: String,
    pub is_dir: bool,
    pub size: u64,
    pub mtime: i64,
    pub digest: Result<Vec<u8>, IoError>,
}

/// A data file in the plain layout.
#[derive(Debug)]
pub struct FileDescription {
    pub size: u64,
    pub mtime: i64,
    /// Its sidecar, where it could be read.
    pub metadata: Option<ObjectMetadata>,
}

/// The answer to a question.
#[derive(Debug)]
pub enum Answer {
    Unit(Result<(), IoError>),
    Blob(Result<BlobInfo, IoError>),
    Body(Result<BodyDigest, IoError>),
    Manifest(Result<Manifest, IoError>),
    Journal(Result<Journal, IoError>),
    Metadata(Result<ObjectMetadata, IoError>),
    Upload(UploadProbe),
    PlainUpload(Result<MultipartUpload, IoError>),
    PartRef(Option<StoredRef>),
    PartRefs(Result<Vec<RefEntry>, IoError>),
    Times(Vec<i64>),
    Opened(Result<u64, IoError>),
    Files(Result<Vec<String>, IoError>),
    Entries(Result<Vec<Result<Entry, IoError>>, IoError>),
    UploadDirs(Result<Vec<Result<UploadDir, IoError>>, IoError>),
    PlainPart(PlainPart),
    PlainParts(Result<Vec<Result<PlainPartEntry, IoError>>, IoError>),
    PlainUploads(Result<Vec<Result<Option<MultipartUpload>, IoError>>, IoError>),
    Described(Result<FileDescription, IoError>),
}

/// How the failure of a call is reported.
#[derive(Clone, Copy, PartialEq, Eq, Structural, Debug)]
pub enum Report {
    Io,
    /// The commit took place but is not durable.
    NotDurable,
    /// A missing bucket is one that is not there or is no directory.
    NoBucket,
    /// Whatever failed, with this error.
    Given(StorageError),
}

/// The error with which a failed call is reported.
pub open spec fn reported(report: Report, e: IoError) -> StorageError {
    match report {
        Report::Io => StorageError::Io(e),
        Report::NotDurable => StorageError::CommitNotDurable(e),
        Report::NoBucket => if e.kind == IoErrorKind::NotFound || e.kind
            == IoErrorKind::NotADirectory {
            StorageError::BucketNotFound
        } else {
            StorageError::Io(e)
        },
        Report::Given(error) => error,
    }
}

/// The error with which a failed call is reported.
pub fn report_error(report: Report, e: IoError) -> (r: StorageError)
    ensures
        r == reported(report, e),
{
    match report {
        Report::Io => StorageError::Io(e),
        Report::NotDurable => StorageError::CommitNotDurable(e),
        Report::NoBucket => if e.kind == IoErrorKind::NotFound || e.kind
            == IoErrorKind::NotADirectory {
            StorageError::BucketNotFound
        } else {
            StorageError::Io(e)
        },
        Report::Given(error) => error,
    }
}

} // verus!
