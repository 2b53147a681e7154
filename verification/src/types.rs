//! The types that the store hands to its callers, and the rules for bucket names.

use vstd::prelude::*;
use crate::metadata::{ObjectMetadata, ObjectMetadataView};
use crate::numbers::{all_digits, digits_value, is_digit, parse_unsigned};
use crate::reader::ByteRange;
use crate::text::{chars_of, ends_with, pieces, split, starts_with, texts};

verus! {

/// At most this many uploads are listed in one response.
pub const MAX_UPLOADS_CAP: usize = 1000;

/// The kinds of I/O failure that the store tells apart.
#[derive(Clone, Copy, PartialEq, Eq, Structural, Debug)]
pub enum IoErrorKind {
    NotFound,
    AlreadyExists,
    NotADirectory,
    InvalidData,
    Interrupted,
    WriteZero,
    Other,
}

/// An I/O failure: its kind and, where the system gave one, its error number.
#[derive(Clone, Copy, PartialEq, Eq, Structural, Debug)]
pub struct IoError {
    pub kind: IoErrorKind,
    pub code: i32,
}

/// Why a request was refused.
#[derive(Clone, Copy, PartialEq, Eq, Structural, Debug)]
pub enum StorageError {
    BucketNotFound,
    BucketNotEmpty,
    BucketExists,
    ObjectNotFound,
    InvalidBucket,
    PathTraversal,
    NoSuchUpload,
    InvalidPartOrder,
    InvalidPart,
    /// The requested range lies outside the object, whose size is given.
    RangeNotSatisfiable { size: u64 },
    /// The request body ended early or was framed wrongly.
    IncompleteBody,
    /// The new version is live, but its directory entry could not be made durable.
    CommitNotDurable(IoError),
    Io(IoError),
}

#[derive(Debug)]
pub struct BucketInfo {
    pub name: String,
    /// Creation time in Unix seconds.
    pub creation_unix: i64,
}

#[verifier::ext_equal]
pub struct BucketInfoView {
    pub name: Seq<char>,
    pub creation_unix: i64,
}

impl View for BucketInfo {
    type V = BucketInfoView;

    open spec fn view(&self) -> BucketInfoView {
        BucketInfoView { name: self.name@, creation_unix: self.creation_unix }
    }
}

#[derive(Debug)]
pub struct ObjectInfo {
    pub key: String,
    pub size: i64,
    /// The entity tag with its quotes.
    pub etag: String,
    pub last_modified_unix: i64,
}

#[verifier::ext_equal]
pub struct ObjectInfoView {
    pub key: Seq<char>,
    pub size: i64,
    pub etag: Seq<char>,
    pub last_modified_unix: i64,
}

impl View for ObjectInfo {
    type V = ObjectInfoView;

    open spec fn view(&self) -> ObjectInfoView {
        ObjectInfoView {
            key: self.key@,
            size: self.size,
            etag: self.etag@,
            last_modified_unix: self.last_modified_unix,
        }
    }
}

/// A listing request.
#[derive(Debug)]
pub struct ListObjectsInput {
    pub bucket: String,
    pub prefix: String,
    pub delimiter: String,
    /// `None` means that no limit was asked for, `Some(0)` asks for an empty page.
    pub max_keys: Option<i32>,
    pub start_after: String,
    pub continuation_token: String,
}

/// One page of a listing.
#[derive(Debug)]
pub struct ListObjectsOutput {
    pub objects: Vec<ObjectInfo>,
    pub common_prefixes: Vec<String>,
    pub is_truncated: bool,
    pub next_continuation_token: String,
}

#[verifier::ext_equal]
pub struct ListObjectsView {
    pub objects: Seq<ObjectInfoView>,
    pub common_prefixes: Seq<Seq<char>>,
    pub is_truncated: bool,
    pub next_continuation_token: Seq<char>,
}

impl View for ListObjectsOutput {
    type V = ListObjectsView;

    open spec fn view(&self) -> ListObjectsView {
        ListObjectsView {
            objects: Seq::new(self.objects@.len(), |i: int| self.objects@[i]@),
            common_prefixes: texts(self.common_prefixes@),
            is_truncated: self.is_truncated,
            next_continuation_token: self.next_continuation_token@,
        }
    }
}

/// An upload in progress, as its `upload.json` records it.
#[derive(Debug)]
pub struct MultipartUpload {
    pub upload_id: String,
    pub bucket: String,
    pub key: String,
    pub initiated_unix: i64,
    pub content_type: String,
    /// The user's metadata in the order of its names.
    pub user_metadata: Vec<(String, String)>,
}

#[verifier::ext_equal]
pub struct MultipartUploadView {
    pub upload_id: Seq<char>,
    pub bucket: Seq<char>,
    pub key: Seq<char>,
    pub initiated_unix: i64,
    pub content_type: Seq<char>,
    pub user_metadata: Seq<(Seq<char>, Seq<char>)>,
}

/// The views of a list of name and value pairs.
pub open spec fn pairs(v: Seq<(String, String)>) -> Seq<(Seq<char>, Seq<char>)> {
    Seq::new(v.len(), |i: int| (v[i].0@, v[i].1@))
}

impl View for MultipartUpload {
    type V = MultipartUploadView;

    open spec fn view(&self) -> MultipartUploadView {
        MultipartUploadView {
            upload_id: self.upload_id@,
            bucket: self.bucket@,
            key: self.key@,
            initiated_unix: self.initiated_unix,
            content_type: self.content_type@,
            user_metadata: pairs(self.user_metadata@),
        }
    }
}

impl Clone for MultipartUpload {
    fn clone(&self) -> (r: MultipartUpload)
        ensures
            r@ == self@,
    {
        MultipartUpload {
            upload_id: self.upload_id.clone(),
            bucket: self.bucket.clone(),
            key: self.key.clone(),
            initiated_unix: self.initiated_unix,
            content_type: self.content_type.clone(),
            user_metadata: copy_pairs(&self.user_metadata),
        }
    }
}

#[derive(Debug)]
pub struct PartInfo {
    pub part_number: i32,
    pub size: i64,
    pub etag: String,
    pub last_modified_unix: i64,
}

#[verifier::ext_equal]
pub struct PartInfoView {
    pub part_number: i32,
    pub size: i64,
    pub etag: Seq<char>,
    pub last_modified_unix: i64,
}

impl View for PartInfo {
    type V = PartInfoView;

    open spec fn view(&self) -> PartInfoView {
        PartInfoView {
            part_number: self.part_number,
            size: self.size,
            etag: self.etag@,
            last_modified_unix: self.last_modified_unix,
        }
    }
}

/// A part that the client claims when it completes an upload.
#[derive(Debug)]
pub struct CompletePart {
    pub part_number: i32,
    pub etag: String,
}

#[verifier::ext_equal]
pub struct CompletePartView {
    pub part_number: i32,
    pub etag: Seq<char>,
}

impl View for CompletePart {
    type V = CompletePartView;

    open spec fn view(&self) -> CompletePartView {
        CompletePartView { part_number: self.part_number, etag: self.etag@ }
    }
}

/// A copy of a list of name and value pairs.
pub fn copy_pairs(v: &Vec<(String, String)>) -> (r: Vec<(String, String)>)
    ensures
        pairs(r@) == pairs(v@),
{
    let mut out: Vec<(String, String)> = Vec::new();
    let mut i: usize = 0;
    while i < v.len()
        invariant
            i <= v@.len(),
            out@.len() == i,
            forall|j: int| 0 <= j < i ==> (#[trigger] out@[j]).0@ == v@[j].0@ && out@[j].1@
                == v@[j].1@,
        decreases v@.len() - i,
    {
        out.push((v[i].0.clone(), v[i].1.clone()));
        i = i + 1;
    }
    assert(pairs(out@) =~= pairs(v@));
    out
}

/// A lower-case letter, a digit, a dot or a hyphen.
pub open spec fn is_name_char(c: char) -> bool {
    ('a' <= c && c <= 'z') || is_digit(c) || c == '.' || c == '-'
}

/// A character that a bucket name may begin or end with.
pub open spec fn is_name_edge(c: char) -> bool {
    ('a' <= c && c <= 'z') || is_digit(c)
}

/// One number of a dotted address: one to three digits, at most 255.
pub open spec fn is_octet(s: Seq<char>) -> bool {
    1 <= s.len() <= 3 && all_digits(s) && digits_value(s) <= 255
}

/// Four numbers with dots between them.
pub open spec fn is_dotted_address(s: Seq<char>) -> bool {
    split(s, '.').len() == 4 && forall|i: int|
        0 <= i < 4 ==> is_octet(#[trigger] split(s, '.')[i])
}

/// The naming rules for buckets.
pub open spec fn is_bucket_name(s: Seq<char>) -> bool {
    &&& 3 <= s.len() <= 63
    &&& forall|i: int| 0 <= i < s.len() ==> is_name_char(#[trigger] s[i])
    &&& forall|i: int| 0 < i < s.len() && #[trigger] s[i] == '.' ==> s[i - 1] != '.'
    &&& is_name_edge(s[0])
    &&& is_name_edge(s.last())
    &&& !"xn--"@.is_prefix_of(s)
    &&& !"-s3alias"@.is_suffix_of(s)
    &&& !is_dotted_address(s)
}

/// A bucket name holds no path separator, no NUL, and is no dot entry.
pub proof fn bucket_name_is_a_path_component(s: Seq<char>)
    requires
        is_bucket_name(s),
    ensures
        s.len() > 0,
        forall|i: int| 0 <= i < s.len() ==> s[i] != '/' && s[i] != '\\' && s[i] != '\0',
        s != seq!['.'],
        s != seq!['.', '.'],
        s[0] != '.',
{
    assert forall|i: int| 0 <= i < s.len() implies s[i] != '/' && s[i] != '\\' && s[i] != '\0' by {
        assert(is_name_char(s[i]));
    }
}

/// Whether the text is one number of a dotted address.
fn check_octet(s: &String) -> (r: bool)
    ensures
        r == is_octet(s@),
{
    let chars = chars_of(s.as_str());
    if chars.len() == 0 || chars.len() > 3 || chars[0] == '+' {
        return false;
    }
    match parse_unsigned(s.as_str(), 255) {
        Some(_) => true,
        None => false,
    }
}

/// Whether `name` looks like a dotted address.
pub fn is_ipv4(name: &str) -> (r: bool)
    ensures
        r == is_dotted_address(name@),
{
    let parts = pieces(name, '.');
    if parts.len() != 4 {
        return false;
    }
    let mut i: usize = 0;
    while i < 4
        invariant
            i <= 4,
            parts@.len() == 4,
            texts(parts@) == split(name@, '.'),
            forall|j: int| 0 <= j < i ==> is_octet(#[trigger] split(name@, '.')[j]),
        decreases 4 - i,
    {
        assert(texts(parts@)[i as int] == parts@[i as int]@);
        if !check_octet(&parts[i]) {
            return false;
        }
        i = i + 1;
    }
    true
}

/// Whether `name` keeps the naming rules.
pub fn is_valid_bucket_name(name: &str) -> (r: bool)
    ensures
        r == is_bucket_name(name@),
{
    let chars = chars_of(name);
    let n: usize = chars.len();
    if n < 3 || n > 63 {
        return false;
    }
    let mut i: usize = 0;
    while i < n
        invariant
            i <= n,
            n == chars@.len(),
            chars@ == name@,
            forall|j: int| 0 <= j < i ==> is_name_char(#[trigger] name@[j]),
            forall|j: int| 0 < j < i && #[trigger] name@[j] == '.' ==> name@[j - 1] != '.',
        decreases n - i,
    {
        let c: char = chars[i];
        let ok = ('a' <= c && c <= 'z') || ('0' <= c && c <= '9') || c == '.' || c == '-';
        if !ok {
            assert(!is_name_char(name@[i as int]));
            return false;
        }
        if i > 0 && c == '.' && chars[i - 1] == '.' {
            assert(name@[i as int] == '.');
            return false;
        }
        i = i + 1;
    }
    let first: char = chars[0];
    let last: char = chars[n - 1];
    if !(('a' <= first && first <= 'z') || ('0' <= first && first <= '9')) {
        return false;
    }
    if !(('a' <= last && last <= 'z') || ('0' <= last && last <= '9')) {
        return false;
    }
    !starts_with(name, "xn--") && !ends_with(name, "-s3alias") && !is_ipv4(name)
}

/// Accepts `name` if it keeps the naming rules.
pub fn validate_bucket_name(name: &str) -> (r: Result<(), StorageError>)
    ensures
        is_bucket_name(name@) ==> r == Ok::<(), StorageError>(()),
        !is_bucket_name(name@) ==> r == Err::<(), StorageError>(StorageError::InvalidBucket),
{
    if is_valid_bucket_name(name) {
        Ok(())
    } else {
        Err(StorageError::InvalidBucket)
    }
}

/// What a read request is answered with: the headers, where the body comes from, and the range
/// that is served, all taken from one manifest.
#[derive(Debug)]
pub struct GetObjectResult {
    pub metadata: ObjectMetadata,
    pub body: BodySource,
    /// The range that is served, `None` for the whole object.
    pub resolved_range: Option<ByteRange>,
    /// The size of the whole object.
    pub total_size: u64,
}

/// Where the bytes of an object are read from.
#[derive(Debug)]
pub enum BodySource {
    /// One file of the given size.
    Single { path: String, size: u64 },
    /// The parts, one after the other.
    Parts { parts: Vec<crate::metadata::PartRef> },
}

#[verifier::ext_equal]
pub enum BodySourceView {
    Single { path: Seq<char>, size: u64 },
    Parts { parts: Seq<crate::metadata::PartRefView> },
}

impl View for BodySource {
    type V = BodySourceView;

    open spec fn view(&self) -> BodySourceView {
        match self {
            BodySource::Single { path, size } => BodySourceView::Single { path: path@, size: *size },
            BodySource::Parts { parts } => BodySourceView::Parts {
                parts: crate::metadata::part_refs(parts@),
            },
        }
    }
}

#[verifier::ext_equal]
pub struct GetObjectView {
    pub metadata: ObjectMetadataView,
    pub body: BodySourceView,
    pub resolved_range: Option<ByteRange>,
    pub total_size: u64,
}

impl View for GetObjectResult {
    type V = GetObjectView;

    open spec fn view(&self) -> GetObjectView {
        GetObjectView {
            metadata: self.metadata@,
            body: self.body@,
            resolved_range: self.resolved_range,
            total_size: self.total_size,
        }
    }
}

} // verus!
