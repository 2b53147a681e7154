//! Writing, reading, deleting and listing objects in the plain layout.

use vstd::prelude::*;
use crate::cas::browse::{listing_start, DEFAULT_MAX_KEYS};
use crate::cas::store::{
    default_type, may_do, must_do, quote, quoted, refusal, refuse, stored_type,
    validate_bucket_component, Env,
};
use crate::filesystem::store::{
    beside, find_bucket_step, is_plain_key, object_depth, object_parent, parent_of,
    push_find_bucket, validate_object_path, Filesystem, ListObjectsInput, META_SUFFIX,
    MULTIPART_DIR,
};
use crate::listing::{
    all_lines, first_lines, group_keys, groups_of, key_groups, objects_of, paginate, plain_keys,
};
use crate::metadata::{
    commit_temp_steps, part_refs, write_metadata, write_temp_step, ObjectMetadata,
    ObjectMetadataView, PartRef,
};
use crate::outside::{hex_encode, hex_text};
use crate::path::path_inner_components;
use crate::plan::call::{
    BodyDigest, Call, CallView, FileDescription, Outcome, OutcomeView, Question, QuestionView,
    Report,
};
use crate::plan::place::{locate, place_path, Place};
use crate::plan::runner::{OnError, Plan, Rule, Step, StepView};
use crate::reader::{sizes_from, ByteRange};
use crate::sorting::{in_text_order, names, sort_by_name, sort_text_set, text_set};
use crate::text::{concat, contains, ends_with, has_text, owned, pieces, same, split, texts};
use crate::types::{
    is_bucket_name, pairs, BodySource, BodySourceView, GetObjectResult, GetObjectView, IoError,
    IoErrorKind, ListObjectsOutput, ListObjectsView, ObjectInfo, ObjectInfoView, StorageError,
};

verus! {

/// What the name of a file adds to that of the data file while it is written.
pub open spec fn tmp_suffix(nonce: Seq<char>) -> Seq<char> {
    ".tmp."@ + nonce
}

/// The sidecar of a key is replaced in one step.
pub open spec fn sidecar_steps(key: Seq<char>, metadata: ObjectMetadataView) -> Seq<StepView> {
    let tmp = Place::ObjectSide { key, suffix: ".s3meta.tmp"@ };
    let at = Place::ObjectSide { key, suffix: META_SUFFIX@ };
    seq![write_temp_step(tmp, metadata, false)] + commit_temp_steps(
        tmp,
        at,
        object_parent(key),
        false,
    )
}

/// Replaces the sidecar of a key.
pub fn push_sidecar(plan: &mut Plan, key: &str, metadata: ObjectMetadata)
    ensures
        final(plan)@ == old(plan)@ + sidecar_steps(key@, metadata@),
{
    write_metadata(
        plan,
        beside(key, ".s3meta.tmp"),
        beside(key, META_SUFFIX),
        parent_of(key),
        metadata,
    );
    assert(plan@ =~= old(plan)@ + sidecar_steps(key@, metadata@));
}

/// An object while its body is written.
#[derive(Debug)]
pub struct PlainPut {
    pub key: String,
    pub content_type: String,
    pub user_metadata: Vec<(String, String)>,
    /// Sets the file that is being written apart.
    pub tmp: String,
    /// Unix seconds.
    pub now: i64,
}

/// How an object begins to be written: its directory is created, and the body goes to a file next
/// to where it belongs, which is removed again if the write fails.
pub open spec fn put_opening(key: Seq<char>, tmp: Seq<char>) -> Seq<StepView> {
    let at = Place::ObjectSide { key, suffix: tmp_suffix(tmp) };
    seq![
        find_bucket_step(),
        must_do(CallView::CreateDirAll { at: object_parent(key) }, Report::Io),
        StepView::Defer { call: CallView::RemoveFile { at } },
        StepView::Ask { question: QuestionView::StreamFile { at } },
    ]
}

/// The sidecar of an object that was put whole.
pub open spec fn put_metadata(put: PlainPut, etag: Seq<char>, size: u64) -> ObjectMetadataView {
    ObjectMetadataView {
        content_type: stored_type(put.content_type@),
        content_length: size as i64,
        etag,
        last_modified: put.now,
        user_metadata: pairs(put.user_metadata@),
        content_disposition: Seq::empty(),
        content_encoding: Seq::empty(),
        cache_control: Seq::empty(),
        multipart: None,
    }
}

/// Once the body is written: the file and then the sidecar are put in place, and the parts of an
/// older version are removed.
pub open spec fn put_steps(
    key: Seq<char>,
    tmp: Seq<char>,
    metadata: ObjectMetadataView,
) -> Seq<StepView> {
    seq![
        must_do(
            CallView::Rename {
                src: Place::ObjectSide { key, suffix: tmp_suffix(tmp) },
                dst: Place::Object { key },
            },
            Report::Io,
        ),
        StepView::Disarm,
    ] + sidecar_steps(key, metadata) + seq![
        may_do(CallView::RemoveDirAll { at: Place::ObjectSide { key, suffix: ".parts"@ } }),
        StepView::Finish { outcome: OutcomeView::Etag { etag: metadata.etag } },
    ]
}

impl Filesystem {
    /// Begins to write an object.
    pub fn put_object(
        &self,
        bucket: &str,
        key: &str,
        content_type: &str,
        user_metadata: Vec<(String, String)>,
        tmp: String,
        now: i64,
    ) -> (r: (PlainPut, Plan))
        ensures
            r.0.key@ == key@,
            r.0.content_type@ == content_type@,
            r.0.user_metadata == user_metadata,
            r.0.tmp == tmp,
            r.0.now == now,
            r.1@ == (if is_bucket_name(bucket@) && is_plain_key(key@) {
                put_opening(key@, tmp@)
            } else {
                refusal(StorageError::PathTraversal)
            }),
    {
        let plan = match validate_object_path(bucket, key) {
            Ok(_) => {
                let suffix = concat(".tmp.", tmp.as_str());
                let mut plan = Plan::new();
                push_find_bucket(&mut plan);
                plan.must(Call::CreateDirAll { at: parent_of(key) }, Report::Io);
                plan.defer(Call::RemoveFile { at: beside(key, suffix.as_str()) });
                plan.ask(Question::StreamFile { at: beside(key, suffix.as_str()) });
                assert(plan@ =~= put_opening(key@, tmp@));
                plan
            },
            Err(e) => refuse(e),
        };
        let put = PlainPut {
            key: owned(key),
            content_type: owned(content_type),
            user_metadata,
            tmp,
            now,
        };
        (put, plan)
    }
}

impl PlainPut {
    /// Goes on once the body is written, or could not be.
    pub fn streamed(self, result: Result<BodyDigest, IoError>) -> (r: Result<Plan, StorageError>)
        ensures
            match result {
                Err(e) => r == Err::<Plan, StorageError>(StorageError::Io(e)),
                Ok(body) => r matches Ok(plan) && plan@ == put_steps(
                    self.key@,
                    self.tmp@,
                    put_metadata(self, quoted(hex_text(body.digest@)), body.size),
                ),
            },
    {
        let body = match result {
            Ok(body) => body,
            Err(e) => return Err(StorageError::Io(e)),
        };
        let hex = hex_encode(body.digest.as_slice());
        let etag = quote(hex.as_str());
        let metadata = ObjectMetadata {
            content_type: default_type(self.content_type.as_str()),
            content_length: body.size as i64,
            etag: etag.clone(),
            last_modified: self.now,
            user_metadata: self.user_metadata,
            content_disposition: String::new(),
            content_encoding: String::new(),
            cache_control: String::new(),
            multipart: None,
        };
        let ghost want = put_metadata(self, etag@, body.size);
        assert(metadata@ =~= want);
        let suffix = concat(".tmp.", self.tmp.as_str());
        let mut plan = Plan::new();
        plan.must(
            Call::Rename {
                src: beside(self.key.as_str(), suffix.as_str()),
                dst: Place::Object { key: self.key.clone() },
            },
            Report::Io,
        );
        plan.push(Step::Disarm);
        push_sidecar(&mut plan, self.key.as_str(), metadata);
        plan.may(Call::RemoveDirAll { at: beside(self.key.as_str(), ".parts") });
        plan.finish(Outcome::Etag { etag });
        assert(plan@ =~= put_steps(self.key@, self.tmp@, want));
        Ok(plan)
    }
}

/// An object without a sidecar: a missing bucket is reported first.
pub open spec fn missing_steps() -> Seq<StepView> {
    seq![find_bucket_step(), StepView::Fail { error: StorageError::ObjectNotFound }]
}

fn missing() -> (r: Plan)
    ensures
        r@ == missing_steps(),
{
    let mut plan = Plan::new();
    push_find_bucket(&mut plan);
    plan.push(Step::Fail { error: StorageError::ObjectNotFound });
    assert(plan@ =~= missing_steps());
    plan
}

/// A read that waits for the sidecar.
#[derive(Debug)]
pub struct PlainRead {
    pub key: String,
    pub range: Option<ByteRange>,
}

/// A read that waits for the data file to be opened.
#[derive(Debug)]
pub struct PlainOpen {
    pub key: String,
    pub metadata: ObjectMetadata,
    pub range: Option<ByteRange>,
}

/// The sidecar of a key is read.
pub open spec fn read_sidecar(key: Seq<char>) -> StepView {
    StepView::Ask {
        question: QuestionView::ReadMetadata {
            at: Place::ObjectSide { key, suffix: META_SUFFIX@ },
        },
    }
}

impl Filesystem {
    /// Begins to read an object.
    pub fn get_object(&self, bucket: &str, key: &str, range: Option<ByteRange>) -> (r: (
        PlainRead,
        Plan,
    ))
        ensures
            r.0.key@ == key@,
            r.0.range == range,
            r.1@ == (if is_bucket_name(bucket@) && is_plain_key(key@) {
                seq![read_sidecar(key@)]
            } else {
                refusal(StorageError::PathTraversal)
            }),
    {
        (PlainRead { key: owned(key), range }, self.head_object(bucket, key))
    }

    /// Begins to read the headers of an object.
    pub fn head_object(&self, bucket: &str, key: &str) -> (r: Plan)
        ensures
            r@ == (if is_bucket_name(bucket@) && is_plain_key(key@) {
                seq![read_sidecar(key@)]
            } else {
                refusal(StorageError::PathTraversal)
            }),
    {
        match validate_object_path(bucket, key) {
            Ok(_) => {
                let mut plan = Plan::new();
                plan.ask(Question::ReadMetadata { at: beside(key, META_SUFFIX) });
                assert(plan@ =~= seq![read_sidecar(key@)]);
                plan
            },
            Err(e) => refuse(e),
        }
    }

    /// Deletes an object: its file, its sidecar and its parts, as far as they are there, and the
    /// directories above it that are empty then.
    pub fn delete_object(&self, bucket: &str, key: &str) -> (r: Plan)
        ensures
            r@ == (if is_bucket_name(bucket@) && is_plain_key(key@) {
                delete_steps(key@)
            } else {
                refusal(StorageError::PathTraversal)
            }),
    {
        if let Err(e) = validate_object_path(bucket, key) {
            return refuse(e);
        }
        let mut plan = Plan::new();
        plan.may(Call::RemoveFile { at: Place::Object { key: owned(key) } });
        plan.may(Call::RemoveFile { at: beside(key, META_SUFFIX) });
        plan.may(Call::RemoveDirAll { at: beside(key, ".parts") });
        let ghost front = plan@;
        let comps = path_inner_components(key);
        assert(texts(comps@).len() == comps.len());
        let top: usize = if comps.len() > 0 {
            comps.len() - 1
        } else {
            0
        };
        let mut depth: usize = top;
        let ghost all = prune_steps(key@, top as int);
        while depth > 0
            invariant
                depth <= top,
                front + all == plan@ + prune_steps(key@, depth as int),
            decreases depth,
        {
            let ghost before = plan@;
            plan.push(
                Step::Do {
                    call: Call::RemoveDir { at: Place::ObjectDir { key: owned(key), depth } },
                    rule: Rule {
                        count: None,
                        missing_ok: false,
                        on_error: OnError::Taint,
                        if_clean: true,
                    },
                },
            );
            proof {
                let rest = prune_steps(key@, depth - 1);
                assert(plan@ + rest =~= before + prune_steps(key@, depth as int));
            }
            depth = depth - 1;
        }
        proof {
            assert(plan@ + prune_steps(key@, 0) =~= plan@);
            if comps@.len() == 0 {
                assert(prune_steps(key@, object_depth(key@)) =~= prune_steps(key@, 0));
            }
        }
        plan.finish(Outcome::Nothing);
        assert(plan@ =~= delete_steps(key@));
        plan
    }
}

/// The directories above a data file are removed as long as they are empty, the innermost first.
pub open spec fn prune_steps(key: Seq<char>, depth: int) -> Seq<StepView>
    decreases depth,
{
    if depth <= 0 {
        Seq::empty()
    } else {
        seq![
            StepView::Do {
                call: CallView::RemoveDir { at: Place::ObjectDir { key, depth: depth as usize } },
                rule: Rule {
                    count: None,
                    missing_ok: false,
                    on_error: OnError::Taint,
                    if_clean: true,
                },
            },
        ] + prune_steps(key, depth - 1)
    }
}

/// The deletion of an object, which succeeds whether or not there is one.
pub open spec fn delete_steps(key: Seq<char>) -> Seq<StepView> {
    seq![
        may_do(CallView::RemoveFile { at: Place::Object { key } }),
        may_do(CallView::RemoveFile { at: Place::ObjectSide { key, suffix: META_SUFFIX@ } }),
        may_do(CallView::RemoveDirAll { at: Place::ObjectSide { key, suffix: ".parts"@ } }),
    ] + prune_steps(key, object_depth(key)) + seq![
        StepView::Finish { outcome: OutcomeView::Nothing },
    ]
}

/// Answers a request for headers once the sidecar was read.
pub fn plain_head_answer(result: Result<ObjectMetadata, IoError>) -> (r: Result<Plan, StorageError>)
    ensures
        match result {
            Ok(m) => r matches Ok(plan) && plan@ == seq![
                StepView::Finish { outcome: OutcomeView::Headers { metadata: m@ } },
            ],
            Err(e) => if e.kind == IoErrorKind::NotFound {
                r matches Ok(plan) && plan@ == missing_steps()
            } else {
                r == Err::<Plan, StorageError>(StorageError::Io(e))
            },
        },
{
    match result {
        Ok(m) => {
            let mut plan = Plan::new();
            plan.finish(Outcome::Headers { metadata: m });
            assert(plan@ =~= seq![
                StepView::Finish { outcome: OutcomeView::Headers { metadata: m@ } },
            ]);
            Ok(plan)
        },
        Err(e) => if e.kind == IoErrorKind::NotFound {
            Ok(missing())
        } else {
            Err(StorageError::Io(e))
        },
    }
}

/// The sum of the sizes of the parts, where it can be written down.
fn sum_of_sizes(parts: &Vec<PartRef>) -> (r: Option<u64>)
    ensures
        match r {
            Some(n) => n == sizes_from(part_refs(parts@), 0),
            None => sizes_from(part_refs(parts@), 0) > u64::MAX,
        },
{
    let ghost all = part_refs(parts@);
    let mut left: usize = parts.len();
    let mut sum: u64 = 0;
    while left > 0
        invariant
            left <= parts@.len(),
            all == part_refs(parts@),
            sum == sizes_from(all, left as int),
        decreases left,
    {
        proof {
            crate::reader::lemma_sizes_suffix(all, left - 1);
            assert(all[left - 1].size == parts@[left - 1].size);
        }
        match sum.checked_add(parts[left - 1].size) {
            Some(n) => {
                sum = n;
            },
            None => return None,
        }
        left = left - 1;
    }
    Some(sum)
}

impl PlainRead {
    /// Goes on once the sidecar was read: an object in parts is answered, and the data file of
    /// another one is opened.
    pub fn found(self, result: Result<ObjectMetadata, IoError>) -> (r: Result<
        (Option<PlainOpen>, Plan),
        StorageError,
    >)
        ensures
            match result {
                Err(e) => if e.kind == IoErrorKind::NotFound {
                    r matches Ok(p) && p.0 is None && p.1@ == missing_steps()
                } else {
                    r == Err::<(Option<PlainOpen>, Plan), StorageError>(StorageError::Io(e))
                },
                Ok(m) => match m@.multipart {
                    Some(parts) => if sizes_from(parts, 0) <= u64::MAX {
                        r matches Ok(p) && p.0 is None && p.1@ == seq![
                            StepView::Finish {
                                outcome: OutcomeView::Object {
                                    object: GetObjectView {
                                        metadata: m@,
                                        body: BodySourceView::Parts { parts },
                                        resolved_range: self.range,
                                        total_size: sizes_from(parts, 0) as u64,
                                    },
                                },
                            },
                        ]
                    } else {
                        r == Err::<(Option<PlainOpen>, Plan), StorageError>(
                            StorageError::Io(IoError { kind: IoErrorKind::InvalidData, code: 0 }),
                        )
                    },
                    None => {
                        &&& r matches Ok(p)
                        &&& p.0 matches Some(o)
                        &&& o.key == self.key
                        &&& o.metadata == m
                        &&& o.range == self.range
                        &&& p.1@ == seq![
                            StepView::Ask {
                                question: QuestionView::OpenFile {
                                    at: Place::Object { key: self.key@ },
                                },
                            },
                        ]
                    },
                },
            },
    {
        let m = match result {
            Ok(m) => m,
            Err(e) => {
                if e.kind == IoErrorKind::NotFound {
                    return Ok((None, missing()));
                }
                return Err(StorageError::Io(e));
            },
        };
        let mut plan = Plan::new();
        let body: Option<(Vec<PartRef>, u64)> = match &m.multipart {
            Some(parts) => match sum_of_sizes(parts) {
                Some(total) => Some((crate::metadata::copy_parts(parts), total)),
                None => return Err(
                    StorageError::Io(IoError { kind: IoErrorKind::InvalidData, code: 0 }),
                ),
            },
            None => None,
        };
        match body {
            Some((parts, total)) => {
                plan.finish(
                    Outcome::Object {
                        object: GetObjectResult {
                            metadata: m,
                            body: BodySource::Parts { parts },
                            resolved_range: self.range,
                            total_size: total,
                        },
                    },
                );
                assert(plan@.len() == 1);
                assert(plan@ =~= seq![plan@[0]]);
                Ok((None, plan))
            },
            None => {
                plan.ask(Question::OpenFile { at: Place::Object { key: self.key.clone() } });
                assert(plan@ =~= seq![
                    StepView::Ask {
                        question: QuestionView::OpenFile { at: Place::Object { key: self.key@ } },
                    },
                ]);
                Ok((Some(PlainOpen { key: self.key, metadata: m, range: self.range }), plan))
            },
        }
    }
}

impl PlainOpen {
    /// Answers the read once the data file was opened.
    pub fn opened(self, env: &Env, size: Result<u64, IoError>) -> (r: Result<Plan, StorageError>)
        ensures
            match size {
                Ok(n) => r matches Ok(plan) && plan@ == seq![
                    StepView::Finish {
                        outcome: OutcomeView::Object {
                            object: GetObjectView {
                                metadata: self.metadata@,
                                body: BodySourceView::Single {
                                    path: place_path(
                                        env.root@,
                                        env.bucket@,
                                        Place::Object { key: self.key@ },
                                    ),
                                    size: n,
                                },
                                resolved_range: self.range,
                                total_size: self.metadata.content_length as u64,
                            },
                        },
                    },
                ],
                Err(e) => if e.kind == IoErrorKind::NotFound {
                    r matches Ok(plan) && plan@ == missing_steps()
                } else {
                    r == Err::<Plan, StorageError>(StorageError::Io(e))
                },
            },
    {
        let n: u64 = match size {
            Ok(n) => n,
            Err(e) => {
                if e.kind == IoErrorKind::NotFound {
                    return Ok(missing());
                }
                return Err(StorageError::Io(e));
            },
        };
        let path = locate(
            env.root.as_str(),
            env.bucket.as_str(),
            &Place::Object { key: self.key },
        );
        let total: u64 = self.metadata.content_length as u64;
        let mut plan = Plan::new();
        plan.finish(
            Outcome::Object {
                object: GetObjectResult {
                    metadata: self.metadata,
                    body: BodySource::Single { path, size: n },
                    resolved_range: self.range,
                    total_size: total,
                },
            },
        );
        assert(plan@.len() == 1);
        assert(plan@ =~= seq![plan@[0]]);
        Ok(plan)
    }
}

/// A directory whose files are not objects: uploads in progress and stored parts.
pub open spec fn is_hidden_dir(name: Seq<char>) -> bool {
    name == MULTIPART_DIR@ || ".parts"@.is_suffix_of(name)
}

/// Whether the files of a directory are not objects.
pub fn hides_files(name: &str) -> (r: bool)
    ensures
        r == is_hidden_dir(name@),
{
    same(name, MULTIPART_DIR) || ends_with(name, ".parts")
}

/// A file that is an object: it is no sidecar, is not being written, and lies in no hidden
/// directory.
pub open spec fn is_object_file(rel: Seq<char>) -> bool {
    let comps = split(rel, '/');
    &&& forall|i: int| 0 <= i < comps.len() - 1 ==> !is_hidden_dir(#[trigger] comps[i])
    &&& !META_SUFFIX@.is_suffix_of(comps.last())
    &&& !has_text(comps.last(), ".tmp."@)
}

/// The files that are objects.
pub open spec fn object_files(rels: Seq<Seq<char>>) -> Seq<Seq<char>>
    decreases rels.len(),
{
    if rels.len() == 0 {
        Seq::empty()
    } else {
        let front = object_files(rels.drop_last());
        if is_object_file(rels.last()) {
            front.push(rels.last())
        } else {
            front
        }
    }
}

/// Whether a file is an object.
fn check_object_file(rel: &str) -> (r: bool)
    ensures
        r == is_object_file(rel@),
{
    let comps = pieces(rel, '/');
    let ghost views = split(rel@, '/');
    proof {
        crate::text::lemma_split_pieces(rel@, '/');
    }
    assert(texts(comps@).len() == comps.len());
    let last: usize = comps.len() - 1;
    assert(views[last as int] == comps@[last as int]@);
    let mut i: usize = 0;
    while i < last
        invariant
            i <= last,
            last + 1 == comps@.len(),
            views == split(rel@, '/'),
            texts(comps@) == views,
            forall|j: int| 0 <= j < i ==> !is_hidden_dir(#[trigger] views[j]),
        decreases last - i,
    {
        assert(views[i as int] == comps@[i as int]@);
        if hides_files(comps[i].as_str()) {
            assert(is_hidden_dir(views[i as int]));
            return false;
        }
        i = i + 1;
    }
    !ends_with(comps[last].as_str(), META_SUFFIX) && !contains(comps[last].as_str(), ".tmp.")
}

/// A listing while the bucket is walked.
#[derive(Debug)]
pub struct PlainBrowsing {
    pub prefix: String,
    pub delimiter: String,
    pub start: String,
    pub max: usize,
}

/// A listing while its data files are described one after the other.
#[derive(Debug)]
pub struct PlainFilling {
    pub keys: Vec<String>,
    /// How many of them were described.
    pub next: usize,
    pub objects: Vec<ObjectInfo>,
    pub groups: Vec<String>,
    pub start: String,
    pub max: usize,
}

/// The limit of a page.
pub open spec fn plain_limit(max_keys: i32) -> int {
    if max_keys <= 0 {
        DEFAULT_MAX_KEYS as int
    } else {
        max_keys as int
    }
}

/// What is listed of a data file: its sidecar counts, where it could be read.
pub open spec fn file_line(key: Seq<char>, file: FileDescription) -> ObjectInfoView {
    match file.metadata {
        Some(m) => ObjectInfoView {
            key,
            size: m.content_length,
            etag: m.etag@,
            last_modified_unix: m.last_modified,
        },
        None => ObjectInfoView {
            key,
            size: file.size as i64,
            etag: Seq::empty(),
            last_modified_unix: file.mtime,
        },
    }
}

/// The views of a list of objects.
pub open spec fn info_views(v: Seq<ObjectInfo>) -> Seq<ObjectInfoView> {
    Seq::new(v.len(), |i: int| v[i]@)
}

/// What is listed of a key.
pub open spec fn info_at(infos: Seq<ObjectInfoView>, key: Seq<char>) -> Option<ObjectInfoView>
    decreases infos.len(),
{
    if infos.len() == 0 {
        None
    } else if infos.last().key == key {
        Some(infos.last())
    } else {
        info_at(infos.drop_last(), key)
    }
}

/// What is listed of the keys.
pub open spec fn infos_at(infos: Seq<ObjectInfoView>, keys: Seq<Seq<char>>) -> Seq<ObjectInfoView>
    decreases keys.len(),
{
    if keys.len() == 0 {
        Seq::empty()
    } else {
        let front = infos_at(infos, keys.drop_last());
        match info_at(infos, keys.last()) {
            Some(info) => front.push(info),
            None => front,
        }
    }
}

/// The page of a listing once all data files are described.
pub open spec fn plain_page(
    keys: Seq<Seq<char>>,
    infos: Seq<ObjectInfoView>,
    groups: Seq<Seq<char>>,
    start: Seq<char>,
    max: int,
) -> ListObjectsView {
    let lines = all_lines(in_text_order(keys), text_set(groups), start);
    let page = first_lines(lines, max);
    let objects = infos_at(infos, objects_of(page));
    let prefixes = groups_of(page);
    ListObjectsView {
        objects,
        common_prefixes: prefixes,
        is_truncated: lines.len() > max,
        next_continuation_token: if lines.len() <= max {
            Seq::empty()
        } else if objects.len() > 0 {
            objects.last().key
        } else if prefixes.len() > 0 {
            prefixes.last()
        } else {
            Seq::empty()
        },
    }
}

/// Finds what is listed of a key.
fn find_info(infos: &Vec<ObjectInfo>, key: &str) -> (r: Option<ObjectInfo>)
    ensures
        match r {
            Some(info) => info_at(info_views(infos@), key@) == Some(info@),
            None => info_at(info_views(infos@), key@) is None,
        },
{
    let ghost all = info_views(infos@);
    let mut left: usize = infos.len();
    assert(all.take(left as int) =~= all);
    while left > 0
        invariant
            left <= infos@.len(),
            all == info_views(infos@),
            info_at(all, key@) == info_at(all.take(left as int), key@),
        decreases left,
    {
        proof {
            let t = all.take(left as int);
            assert(t.last() == infos@[left - 1]@);
            assert(t.drop_last() =~= all.take(left - 1));
        }
        let info = &infos[left - 1];
        if same(info.key.as_str(), key) {
            return Some(
                ObjectInfo {
                    key: info.key.clone(),
                    size: info.size,
                    etag: info.etag.clone(),
                    last_modified_unix: info.last_modified_unix,
                },
            );
        }
        left = left - 1;
    }
    None
}

impl PlainFilling {
    /// The next data file is described, or the page is answered.
    pub open spec fn next_steps(&self) -> Seq<StepView> {
        seq![
            if self.next < self.keys@.len() {
                StepView::Ask {
                    question: QuestionView::Describe { key: self.keys@[self.next as int]@ },
                }
            } else {
                StepView::Finish {
                    outcome: OutcomeView::Listing {
                        page: plain_page(
                            texts(self.keys@),
                            info_views(self.objects@),
                            texts(self.groups@),
                            self.start@,
                            self.max as int,
                        ),
                    },
                }
            },
        ]
    }

    fn go_on(self) -> (r: (Option<PlainFilling>, Plan))
        ensures
            r.1@ == self.next_steps(),
            r.0 == (if self.next < self.keys@.len() {
                Some(self)
            } else {
                None
            }),
    {
        let mut plan = Plan::new();
        if self.next < self.keys.len() {
            plan.ask(Question::Describe { key: self.keys[self.next].clone() });
            assert(plan@ =~= self.next_steps());
            return (Some(self), plan);
        }
        assert(names(self.keys@) =~= texts(self.keys@));
        let sorted = sort_by_name(self.keys);
        assert(names(sorted@) =~= texts(sorted@));
        let page = paginate(
            sorted,
            sort_text_set(self.groups),
            self.start.as_str(),
            self.max,
        );
        let ghost keys = texts(page.objects@);
        let ghost infos = info_views(self.objects@);
        let mut objects: Vec<ObjectInfo> = Vec::new();
        let mut i: usize = 0;
        assert(keys.take(0) =~= Seq::empty());
        assert(info_views(objects@) =~= Seq::empty());
        while i < page.objects.len()
            invariant
                i <= page.objects@.len(),
                keys == texts(page.objects@),
                infos == info_views(self.objects@),
                info_views(objects@) == infos_at(infos, keys.take(i as int)),
            decreases page.objects@.len() - i,
        {
            proof {
                let t = keys.take(i + 1);
                assert(t.drop_last() =~= keys.take(i as int));
                assert(t.last() == page.objects@[i as int]@);
            }
            if let Some(info) = find_info(&self.objects, page.objects[i].as_str()) {
                let ghost found = info_views(objects@);
                objects.push(info);
                assert(info_views(objects@) =~= found.push(info@));
            }
            i = i + 1;
        }
        assert(keys.take(i as int) =~= keys);
        let token = if !page.truncated {
            String::new()
        } else if objects.len() > 0 {
            assert(info_views(objects@).last() == objects@[objects@.len() - 1]@);
            objects[objects.len() - 1].key.clone()
        } else if page.groups.len() > 0 {
            assert(texts(page.groups@).last() == page.groups@[page.groups@.len() - 1]@);
            page.groups[page.groups.len() - 1].clone()
        } else {
            String::new()
        };
        let out = ListObjectsOutput {
            objects,
            common_prefixes: page.groups,
            is_truncated: page.truncated,
            next_continuation_token: token,
        };
        proof {
            let want = plain_page(
                texts(self.keys@),
                infos,
                texts(self.groups@),
                self.start@,
                self.max as int,
            );
            assert(out@.objects =~= info_views(objects@));
            assert(texts(page.groups@).len() == page.groups@.len());
            assert(out@ =~= want);
        }
        plan.finish(Outcome::Listing { page: out });
        assert(plan@ =~= self.next_steps());
        (None, plan)
    }

    /// Goes on once a data file was described. One that cannot be looked at ends the listing.
    pub fn described(self, result: Result<FileDescription, IoError>) -> (r: Result<
        (Option<PlainFilling>, Plan),
        StorageError,
    >)
        ensures
            match result {
                Err(e) => r == Err::<(Option<PlainFilling>, Plan), StorageError>(
                    StorageError::Io(e),
                ),
                Ok(file) => {
                    let done = self.next < self.keys@.len();
                    let infos = if done {
                        info_views(self.objects@).push(
                            file_line(self.keys@[self.next as int]@, file),
                        )
                    } else {
                        info_views(self.objects@)
                    };
                    let at = if done {
                        self.next + 1
                    } else {
                        self.next as int
                    };
                    &&& r matches Ok(p)
                    &&& p.0 is Some <==> at < self.keys@.len()
                    &&& p.0 matches Some(f) ==> f.keys == self.keys && f.next == at && info_views(
                        f.objects@,
                    ) == infos && f.groups == self.groups && f.start == self.start && f.max
                        == self.max
                    &&& p.1@ == seq![
                        if at < self.keys@.len() {
                            StepView::Ask {
                                question: QuestionView::Describe { key: self.keys@[at]@ },
                            }
                        } else {
                            StepView::Finish {
                                outcome: OutcomeView::Listing {
                                    page: plain_page(
                                        texts(self.keys@),
                                        infos,
                                        texts(self.groups@),
                                        self.start@,
                                        self.max as int,
                                    ),
                                },
                            }
                        },
                    ]
                },
            },
    {
        let file = match result {
            Ok(file) => file,
            Err(e) => return Err(StorageError::Io(e)),
        };
        let ghost before = info_views(self.objects@);
        let mut f = self;
        if f.next < f.keys.len() {
            let key = f.keys[f.next].clone();
            let ghost line = file_line(key@, file);
            let info = match file.metadata {
                Some(m) => ObjectInfo {
                    key,
                    size: m.content_length,
                    etag: m.etag,
                    last_modified_unix: m.last_modified,
                },
                None => ObjectInfo {
                    key,
                    size: file.size as i64,
                    etag: String::new(),
                    last_modified_unix: file.mtime,
                },
            };
            assert(info@ =~= line);
            f.objects.push(info);
            assert(info_views(f.objects@) =~= before.push(line));
            f.next = f.next + 1;
        }
        Ok(f.go_on())
    }
}

impl Filesystem {
    /// Begins to list the objects of a bucket.
    pub fn list_objects(&self, input: &ListObjectsInput) -> (r: (PlainBrowsing, Plan))
        ensures
            r.0.prefix@ == input.prefix@,
            r.0.delimiter@ == input.delimiter@,
            r.0.start@ == listing_start(input.continuation_token@, input.start_after@),
            r.0.max == plain_limit(input.max_keys),
            r.1@ == (if is_bucket_name(input.bucket@) {
                seq![
                    find_bucket_step(),
                    StepView::Ask {
                        question: QuestionView::WalkObjects { at: Place::Bucket },
                    },
                ]
            } else {
                refusal(StorageError::PathTraversal)
            }),
    {
        let max: usize = if input.max_keys <= 0 {
            DEFAULT_MAX_KEYS
        } else {
            input.max_keys as usize
        };
        let start = if !input.continuation_token.as_str().is_empty() {
            input.continuation_token.clone()
        } else {
            input.start_after.clone()
        };
        let browsing = PlainBrowsing {
            prefix: input.prefix.clone(),
            delimiter: input.delimiter.clone(),
            start,
            max,
        };
        let plan = match validate_bucket_component(input.bucket.as_str()) {
            Ok(_) => {
                let mut plan = Plan::new();
                push_find_bucket(&mut plan);
                plan.ask(Question::WalkObjects { at: Place::Bucket });
                assert(plan@ =~= seq![
                    find_bucket_step(),
                    StepView::Ask {
                        question: QuestionView::WalkObjects { at: Place::Bucket },
                    },
                ]);
                plan
            },
            Err(e) => refuse(e),
        };
        (browsing, plan)
    }
}

impl PlainBrowsing {
    /// Goes on once the bucket was walked: the data files that are listed by themselves are
    /// described.
    pub fn walked(self, files: Result<Vec<String>, IoError>) -> (r: Result<
        (Option<PlainFilling>, Plan),
        StorageError,
    >)
        ensures
            match files {
                Err(e) => r == Err::<(Option<PlainFilling>, Plan), StorageError>(
                    StorageError::Io(e),
                ),
                Ok(rels) => {
                    let keys = plain_keys(
                        object_files(texts(rels@)),
                        self.prefix@,
                        self.delimiter@,
                    );
                    let groups = key_groups(
                        object_files(texts(rels@)),
                        self.prefix@,
                        self.delimiter@,
                    );
                    &&& r matches Ok(p)
                    &&& p.0 is Some <==> keys.len() > 0
                    &&& p.0 matches Some(f) ==> texts(f.keys@) == keys && f.next == 0
                        && f.objects@.len() == 0 && texts(f.groups@) == groups && f.start
                        == self.start && f.max == self.max
                    &&& p.1@ == seq![
                        if keys.len() > 0 {
                            StepView::Ask { question: QuestionView::Describe { key: keys[0] } }
                        } else {
                            StepView::Finish {
                                outcome: OutcomeView::Listing {
                                    page: plain_page(
                                        keys,
                                        Seq::empty(),
                                        groups,
                                        self.start@,
                                        self.max as int,
                                    ),
                                },
                            }
                        },
                    ]
                },
            },
    {
        let rels = match files {
            Ok(rels) => rels,
            Err(e) => return Err(StorageError::Io(e)),
        };
        let ghost all = texts(rels@);
        let mut found: Vec<String> = Vec::new();
        let mut i: usize = 0;
        assert(all.take(0) =~= Seq::empty());
        assert(texts(found@) =~= Seq::empty());
        while i < rels.len()
            invariant
                i <= rels@.len(),
                all == texts(rels@),
                files matches Ok(given) && given == rels,
                texts(found@) == object_files(all.take(i as int)),
            decreases rels@.len() - i,
        {
            proof {
                let t = all.take(i + 1);
                assert(t.drop_last() =~= all.take(i as int));
                assert(t.last() == rels@[i as int]@);
            }
            if check_object_file(rels[i].as_str()) {
                let ghost kept = texts(found@);
                found.push(rels[i].clone());
                assert(texts(found@) =~= kept.push(rels@[i as int]@));
            }
            i = i + 1;
        }
        assert(all.take(i as int) =~= all);
        let (keys, groups) = group_keys(found, self.prefix.as_str(), self.delimiter.as_str());
        let f = PlainFilling {
            keys,
            next: 0,
            objects: Vec::new(),
            groups,
            start: self.start,
            max: self.max,
        };
        proof {
            assert(texts(f.keys@).len() == f.keys@.len());
            if f.keys@.len() > 0 {
                assert(texts(f.keys@)[0] == f.keys@[0]@);
            }
            assert(info_views(f.objects@) =~= Seq::empty());
        }
        Ok(f.go_on())
    }
}

} // verus!
