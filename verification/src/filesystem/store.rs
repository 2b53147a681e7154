//! The store of the plain layout, its buckets and the rules for keys.

use vstd::prelude::*;
use crate::cas::store::{must_do, may_do, refusal, refuse, validate_bucket_component};
use crate::metadata::ObjectMetadata;
use crate::path::{inner_components, inner_pieces, path_inner_components};
use crate::plan::call::{Call, CallView, Entry, Outcome, OutcomeView, Question, QuestionView, Report};
use crate::plan::place::{Place, PlaceView};
use crate::plan::runner::{Plan, StepView};
use crate::reader::ByteRange;
use crate::text::{
    contains, has_char, has_text, owned, same, split, stands_at, starts_with, texts,
};
use crate::types::{
    is_bucket_name, is_valid_bucket_name, BodySource, IoError, IoErrorKind,
};

verus! {

/// What the name of a sidecar adds to the name of its data file.
pub const META_SUFFIX: &'static str = ".s3meta";

/// The directory of uploads in progress.
pub const MULTIPART_DIR: &'static str = ".multipart";

/// Why a request was refused.
#[derive(Clone, Copy, PartialEq, Eq, Structural, Debug)]
pub enum StorageError {
    BucketNotFound,
    BucketNotEmpty,
    BucketExists,
    ObjectNotFound,
    InvalidBucket,
    PathTraversal,
    NoSuchUpload,
    InvalidPartOrder,
    InvalidPart,
    Io(IoError),
}

/// The error of the plain layout for the error of a task. The tasks of the plain layout fail with no
/// other errors than those that have a counterpart here.
pub open spec fn plain_error(e: crate::types::StorageError) -> StorageError {
    match e {
        crate::types::StorageError::BucketNotFound => StorageError::BucketNotFound,
        crate::types::StorageError::BucketNotEmpty => StorageError::BucketNotEmpty,
        crate::types::StorageError::BucketExists => StorageError::BucketExists,
        crate::types::StorageError::ObjectNotFound => StorageError::ObjectNotFound,
        crate::types::StorageError::InvalidBucket => StorageError::InvalidBucket,
        crate::types::StorageError::PathTraversal => StorageError::PathTraversal,
        crate::types::StorageError::NoSuchUpload => StorageError::NoSuchUpload,
        crate::types::StorageError::InvalidPartOrder => StorageError::InvalidPartOrder,
        crate::types::StorageError::InvalidPart => StorageError::InvalidPart,
        crate::types::StorageError::RangeNotSatisfiable { .. } => StorageError::Io(
            IoError { kind: IoErrorKind::Other, code: 0 },
        ),
        crate::types::StorageError::IncompleteBody => StorageError::Io(
            IoError { kind: IoErrorKind::InvalidData, code: 0 },
        ),
        crate::types::StorageError::CommitNotDurable(cause) => StorageError::Io(cause),
        crate::types::StorageError::Io(cause) => StorageError::Io(cause),
    }
}

/// The error of the plain layout for the error of a task.
pub fn to_plain_error(e: crate::types::StorageError) -> (r: StorageError)
    ensures
        r == plain_error(e),
{
    match e {
        crate::types::StorageError::BucketNotFound => StorageError::BucketNotFound,
        crate::types::StorageError::BucketNotEmpty => StorageError::BucketNotEmpty,
        crate::types::StorageError::BucketExists => StorageError::BucketExists,
        crate::types::StorageError::ObjectNotFound => StorageError::ObjectNotFound,
        crate::types::StorageError::InvalidBucket => StorageError::InvalidBucket,
        crate::types::StorageError::PathTraversal => StorageError::PathTraversal,
        crate::types::StorageError::NoSuchUpload => StorageError::NoSuchUpload,
        crate::types::StorageError::InvalidPartOrder => StorageError::InvalidPartOrder,
        crate::types::StorageError::InvalidPart => StorageError::InvalidPart,
        crate::types::StorageError::RangeNotSatisfiable { .. } => StorageError::Io(
            IoError { kind: IoErrorKind::Other, code: 0 },
        ),
        crate::types::StorageError::IncompleteBody => StorageError::Io(
            IoError { kind: IoErrorKind::InvalidData, code: 0 },
        ),
        crate::types::StorageError::CommitNotDurable(cause) => StorageError::Io(cause),
        crate::types::StorageError::Io(cause) => StorageError::Io(cause),
    }
}

/// A listing request.
#[derive(Debug)]
pub struct ListObjectsInput {
    pub bucket: String,
    pub prefix: String,
    pub delimiter: String,
    /// A limit that is not positive means that none was asked for.
    pub max_keys: i32,
    pub start_after: String,
    pub continuation_token: String,
}

/// What a read request is answered with.
#[derive(Debug)]
pub struct GetObjectResult {
    pub metadata: ObjectMetadata,
    pub body: BodySource,
    /// The range that is served, `None` for the whole object.
    pub range: Option<ByteRange>,
    /// The size of the whole object.
    pub total_size: u64,
}

impl GetObjectResult {
    /// The answer that a task gave.
    pub fn from_answer(object: crate::types::GetObjectResult) -> (r: GetObjectResult)
        ensures
            r.metadata == object.metadata,
            r.body == object.body,
            r.range == object.resolved_range,
            r.total_size == object.total_size,
    {
        GetObjectResult {
            metadata: object.metadata,
            body: object.body,
            range: object.resolved_range,
            total_size: object.total_size,
        }
    }
}

/// A store below the data root `root`.
#[derive(Debug)]
pub struct Filesystem {
    root: String,
}

/// Accepts `name` if it keeps the naming rules.
pub fn validate_bucket_name(name: &str) -> (r: Result<(), StorageError>)
    ensures
        is_bucket_name(name@) ==> r == Ok::<(), StorageError>(()),
        !is_bucket_name(name@) ==> r == Err::<(), StorageError>(StorageError::InvalidBucket),
{
    if is_valid_bucket_name(name) {
        Ok(())
    } else {
        Err(StorageError::InvalidBucket)
    }
}

/// A key that stays below its bucket: it holds no two dots in a row and no NUL, and does not begin
/// with a separator.
pub open spec fn is_plain_key(key: Seq<char>) -> bool {
    !has_text(key, ".."@) && !key.contains('\0') && !"/"@.is_prefix_of(key)
}

/// Whether an object of this bucket and key can exist, by their text alone.
pub fn validate_object_path(bucket: &str, key: &str) -> (r: Result<
    (),
    crate::types::StorageError,
>)
    ensures
        is_bucket_name(bucket@) && is_plain_key(key@) ==> r == Ok::<
            (),
            crate::types::StorageError,
        >(()),
        !(is_bucket_name(bucket@) && is_plain_key(key@)) ==> r == Err::<
            (),
            crate::types::StorageError,
        >(crate::types::StorageError::PathTraversal),
{
    match validate_bucket_component(bucket) {
        Ok(_) => if contains(key, "..") || has_char(key, '\0') || starts_with(key, "/") {
            Err(crate::types::StorageError::PathTraversal)
        } else {
            Ok(())
        },
        Err(e) => Err(e),
    }
}

/// The components of an accepted key lead down: none of them is a dot entry.
pub proof fn plain_key_stays_below_its_bucket(key: Seq<char>)
    requires
        is_plain_key(key),
    ensures
        forall|i: int|
            0 <= i < inner_components(key).len() ==> {
                let c = #[trigger] inner_components(key)[i];
                c.len() > 0 && c != seq!['.'] && c != seq!['.', '.'] && !c.contains('/')
            },
{
    let pieces = split(key, '/');
    reveal_strlit("/");
    reveal_strlit("..");
    assert("/"@ =~= seq!['/']);
    assert(".."@ =~= seq!['.', '.']);
    if key.len() > 0 && key[0] == '/' {
        assert(key.take(1) =~= "/"@);
        assert("/"@.is_prefix_of(key)) by {
            assert(key.subrange(0, 1) =~= "/"@);
        }
    }
    crate::text::lemma_split_pieces(key, '/');
    assert forall|i: int| 0 <= i < inner_components(key).len() implies {
        let c = #[trigger] inner_components(key)[i];
        c.len() > 0 && c != seq!['.'] && c != seq!['.', '.'] && !c.contains('/')
    } by {
        let c = inner_components(key)[i];
        lemma_named(pieces, i);
        let k = choose|k: int| 0 <= k < pieces.len() && pieces[k] == c;
        if c == seq!['.', '.'] {
            lemma_piece_stands(key, k);
        }
    }
}

/// A component is one of the pieces, and not one that names nothing.
proof fn lemma_named(all: Seq<Seq<char>>, i: int)
    requires
        0 <= i < inner_pieces(all).len(),
    ensures
        ({
            let c = inner_pieces(all)[i];
            c.len() > 0 && c != seq!['.'] && all.contains(c)
        }),
    decreases all.len(),
{
    if all.len() > 0 {
        let front = all.drop_last();
        let n = inner_pieces(front);
        if i < n.len() {
            lemma_named(front, i);
            let c = n[i];
            let k = choose|k: int| 0 <= k < front.len() && front[k] == c;
            assert(all[k] == c);
            assert(inner_pieces(all)[i] == c);
        } else {
            let c = all.last();
            assert(inner_pieces(all)[i] == c);
            assert(all[all.len() - 1] == c);
            assert(all.contains(c));
        }
    }
}

/// The last piece of a text stands at its end.
proof fn lemma_last_piece(s: Seq<char>)
    ensures
        split(s, '/').last().is_suffix_of(s),
    decreases s.len(),
{
    let all = split(s, '/');
    crate::text::lemma_split_pieces(s, '/');
    let tail = all.last();
    if s.len() == 0 {
        assert(tail =~= Seq::empty());
        assert(s.subrange(0, 0) =~= tail);
    } else {
        let front = s.drop_last();
        lemma_last_piece(front);
        crate::text::lemma_split_pieces(front, '/');
        if s.last() == '/' {
            assert(s.subrange(s.len() as int, s.len() as int) =~= tail);
        } else {
            let b = split(front, '/').last();
            assert(tail =~= b.push(s.last()));
            assert(s.subrange(s.len() - tail.len(), s.len() as int) =~= tail) by {
                assert(front.subrange(front.len() - b.len(), front.len() as int) =~= b);
            }
        }
    }
}

/// A piece of a text stands in the text.
proof fn lemma_piece_stands(s: Seq<char>, k: int)
    requires
        0 <= k < split(s, '/').len(),
    ensures
        has_text(s, split(s, '/')[k]),
    decreases s.len(),
{
    let all = split(s, '/');
    let c = all[k];
    if k == all.len() - 1 {
        lemma_last_piece(s);
        assert(stands_at(s, c, s.len() - c.len()));
    } else {
        let front = s.drop_last();
        crate::text::lemma_split_pieces(front, '/');
        assert(c == split(front, '/')[k]);
        lemma_piece_stands(front, k);
        let at = choose|at: int| stands_at(front, c, at);
        assert(s.subrange(at, at + c.len()) =~= front.subrange(at, at + c.len()));
        assert(stands_at(s, c, at));
    }
}

/// The bucket has to be a directory or a link to one.
pub open spec fn find_bucket_step() -> StepView {
    must_do(CallView::CheckLinkedDir { at: Place::Bucket }, Report::NoBucket)
}

pub fn push_find_bucket(plan: &mut Plan)
    ensures
        final(plan)@ == old(plan)@.push(find_bucket_step()),
{
    plan.must(Call::CheckLinkedDir { at: Place::Bucket }, Report::NoBucket);
}

/// How many directories below the bucket lead to the data file of a key.
pub open spec fn object_depth(key: Seq<char>) -> int {
    inner_components(key).len() - 1
}

/// The directory that the data file of a key lies in.
pub open spec fn object_parent(key: Seq<char>) -> PlaceView {
    if inner_components(key).len() == 0 {
        Place::DataRoot
    } else {
        Place::ObjectDir { key, depth: object_depth(key) as usize }
    }
}

/// The directory that the data file of a key lies in.
pub fn parent_of(key: &str) -> (r: Place<String>)
    ensures
        r@ == object_parent(key@),
{
    let comps = path_inner_components(key);
    assert(texts(comps@).len() == comps.len());
    if comps.len() == 0 {
        Place::DataRoot
    } else {
        Place::ObjectDir { key: owned(key), depth: comps.len() - 1 }
    }
}

/// A file next to the data file of a key.
pub fn beside(key: &str, suffix: &str) -> (r: Place<String>)
    ensures
        r@ == (Place::ObjectSide { key: key@, suffix: suffix@ }),
{
    Place::ObjectSide { key: owned(key), suffix: owned(suffix) }
}

impl Filesystem {
    pub closed spec fn root_view(&self) -> Seq<char> {
        self.root@
    }

    /// A store below `root`.
    pub fn new(root: &str) -> (r: Filesystem)
        ensures
            r.root_view() == root@,
    {
        Filesystem { root: owned(root) }
    }

    /// The data root.
    pub fn root(&self) -> (r: &str)
        ensures
            r@ == self.root_view(),
    {
        self.root.as_str()
    }

    /// What the tasks of a bucket have in common.
    pub fn env(&self, bucket: &str) -> (r: crate::cas::store::Env)
        ensures
            r.root@ == self.root_view(),
            r.bucket@ == bucket@,
            !r.fsync,
    {
        crate::cas::store::Env { root: self.root.clone(), bucket: owned(bucket), fsync: false }
    }

    /// Begins to create a bucket.
    pub fn create_bucket(&self, name: &str) -> (r: Plan)
        ensures
            r@ == (if is_bucket_name(name@) {
                seq![StepView::Ask { question: QuestionView::TryCreateDir { at: Place::Bucket } }]
            } else {
                refusal(crate::types::StorageError::InvalidBucket)
            }),
    {
        if !is_valid_bucket_name(name) {
            return refuse(crate::types::StorageError::InvalidBucket);
        }
        let mut plan = Plan::new();
        plan.ask(Question::TryCreateDir { at: Place::Bucket });
        assert(plan@ =~= seq![
            StepView::Ask { question: QuestionView::TryCreateDir { at: Place::Bucket } },
        ]);
        plan
    }

    /// Looks for a bucket.
    pub fn head_bucket(&self, name: &str) -> (r: Plan)
        ensures
            r@ == (if is_bucket_name(name@) {
                seq![find_bucket_step(), StepView::Finish { outcome: OutcomeView::Nothing }]
            } else {
                refusal(crate::types::StorageError::PathTraversal)
            }),
    {
        match validate_bucket_component(name) {
            Ok(_) => {
                let mut plan = Plan::new();
                push_find_bucket(&mut plan);
                plan.finish(Outcome::Nothing);
                assert(plan@ =~= seq![
                    find_bucket_step(),
                    StepView::Finish { outcome: OutcomeView::Nothing },
                ]);
                plan
            },
            Err(e) => refuse(e),
        }
    }

    /// Begins to remove a bucket.
    pub fn delete_bucket(&self, name: &str) -> (r: Plan)
        ensures
            r@ == (if is_bucket_name(name@) {
                seq![
                    find_bucket_step(),
                    StepView::Ask { question: QuestionView::List { at: Place::Bucket } },
                ]
            } else {
                refusal(crate::types::StorageError::PathTraversal)
            }),
    {
        match validate_bucket_component(name) {
            Ok(_) => {
                let mut plan = Plan::new();
                push_find_bucket(&mut plan);
                plan.ask(Question::List { at: Place::Bucket });
                assert(plan@ =~= seq![
                    find_bucket_step(),
                    StepView::Ask { question: QuestionView::List { at: Place::Bucket } },
                ]);
                plan
            },
            Err(e) => refuse(e),
        }
    }

    /// Begins to list the buckets.
    pub fn list_buckets(&self) -> (r: Plan)
        ensures
            r@ == seq![StepView::Ask { question: QuestionView::List { at: Place::DataRoot } }],
    {
        let mut plan = Plan::new();
        plan.ask(Question::List { at: Place::DataRoot });
        assert(plan@ =~= seq![
            StepView::Ask { question: QuestionView::List { at: Place::DataRoot } },
        ]);
        plan
    }
}

/// Answers once the directory of a bucket was created, or turned out to be there.
pub fn bucket_created(result: Result<(), IoError>) -> (r: Result<
    Plan,
    crate::types::StorageError,
>)
    ensures
        match result {
            Ok(_) => r matches Ok(plan) && plan@ == seq![
                StepView::Finish { outcome: OutcomeView::Nothing },
            ],
            Err(e) => r == Err::<Plan, crate::types::StorageError>(
                if e.kind == IoErrorKind::AlreadyExists {
                    crate::types::StorageError::BucketExists
                } else {
                    crate::types::StorageError::Io(e)
                },
            ),
        },
{
    match result {
        Ok(_) => {
            let mut plan = Plan::new();
            plan.finish(Outcome::Nothing);
            assert(plan@ =~= seq![StepView::Finish { outcome: OutcomeView::Nothing }]);
            Ok(plan)
        },
        Err(e) => Err(
            if e.kind == IoErrorKind::AlreadyExists {
                crate::types::StorageError::BucketExists
            } else {
                crate::types::StorageError::Io(e)
            },
        ),
    }
}

/// Why a bucket with these entries is kept: an entry could not be read, or is not the directory of
/// uploads.
pub open spec fn kept_because(entries: Seq<Result<Entry, IoError>>) -> Option<
    crate::types::StorageError,
>
    decreases entries.len(),
{
    if entries.len() == 0 {
        None
    } else {
        match entries[0] {
            Err(e) => Some(crate::types::StorageError::Io(e)),
            Ok(e) => if e.name@ != MULTIPART_DIR@ {
                Some(crate::types::StorageError::BucketNotEmpty)
            } else {
                kept_because(entries.skip(1))
            },
        }
    }
}

/// The directory of uploads and the bucket are removed.
pub open spec fn removal_steps() -> Seq<StepView> {
    seq![
        may_do(CallView::RemoveDirAll { at: Place::BucketUploads }),
        must_do(CallView::RemoveDir { at: Place::Bucket }, Report::Io),
        StepView::Finish { outcome: OutcomeView::Nothing },
    ]
}

/// Removes a bucket once it was listed: only one that holds nothing but the directory of uploads.
pub fn bucket_listed(listing: Result<Vec<Result<Entry, IoError>>, IoError>) -> (r: Result<
    Plan,
    crate::types::StorageError,
>)
    ensures
        match listing {
            Err(e) => r == Err::<Plan, crate::types::StorageError>(
                crate::types::StorageError::Io(e),
            ),
            Ok(entries) => match kept_because(entries@) {
                Some(e) => r == Err::<Plan, crate::types::StorageError>(e),
                None => r matches Ok(plan) && plan@ == removal_steps(),
            },
        },
{
    let entries = match listing {
        Ok(entries) => entries,
        Err(e) => return Err(crate::types::StorageError::Io(e)),
    };
    let mut i: usize = 0;
    assert(entries@.skip(0) =~= entries@);
    while i < entries.len()
        invariant
            i <= entries@.len(),
            listing matches Ok(given) && given == entries,
            kept_because(entries@.skip(i as int)) == kept_because(entries@),
        decreases entries@.len() - i,
    {
        let ghost rest = entries@.skip(i as int);
        proof {
            assert(rest[0] == entries@[i as int]);
            assert(rest.skip(1) =~= entries@.skip(i + 1));
        }
        match &entries[i] {
            Err(e) => return Err(crate::types::StorageError::Io(*e)),
            Ok(e) => {
                if !same(e.name.as_str(), MULTIPART_DIR) {
                    return Err(crate::types::StorageError::BucketNotEmpty);
                }
            },
        }
        i = i + 1;
    }
    let mut plan = Plan::new();
    plan.may(Call::RemoveDirAll { at: Place::BucketUploads });
    plan.must(Call::RemoveDir { at: Place::Bucket }, Report::Io);
    plan.finish(Outcome::Nothing);
    assert(plan@ =~= removal_steps());
    Ok(plan)
}

} // verus!
