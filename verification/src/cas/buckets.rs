//! Creating, finding, removing and listing buckets.

use vstd::prelude::*;
use crate::cas::recovery::{bucket_entry, first_error, is_bucket_entry};
use crate::cas::store::{
    bucket_lock_shard, bucket_shard, head_bucket_step, infra_steps, must_do, push_head_bucket,
    push_infra, refusal, refuse, validate_bucket_component, CasStore, Env,
};
use crate::manifest::{decode_relpath_to_key, decoded_key};
use crate::plan::call::{
    bucket_infos, Call, CallView, Entry, Outcome, OutcomeView, Question, QuestionView, Report,
    UploadDir,
};
use crate::plan::place::Place;
use crate::plan::runner::{Plan, Step, StepView};
use crate::sorting::{in_text_order, lemma_same_views, names, sort_by_name};
use crate::text::texts;
use crate::types::{
    is_bucket_name, validate_bucket_name, BucketInfo, BucketInfoView, IoError, IoErrorKind,
    StorageError,
};

verus! {

/// The entry of the data root for the bucket is made durable.
pub open spec fn root_sync(fsync: bool) -> Seq<StepView> {
    if fsync {
        seq![must_do(CallView::SyncDir { at: Place::DataRoot }, Report::Io)]
    } else {
        Seq::empty()
    }
}

fn push_root_sync(plan: &mut Plan, fsync: bool)
    ensures
        final(plan)@ == old(plan)@ + root_sync(fsync),
{
    if fsync {
        plan.must(Call::SyncDir { at: Place::DataRoot }, Report::Io);
    }
    assert(plan@ =~= old(plan)@ + root_sync(fsync));
}

/// The bucket is locked against everyone else.
pub open spec fn lock_bucket_step(bucket: Seq<char>) -> StepView {
    must_do(CallView::LockBucket { shard: bucket_shard(bucket), exclusive: true }, Report::Io)
}

/// How the creation of a bucket begins.
pub open spec fn create_bucket_opening(name: Seq<char>) -> Seq<StepView> {
    seq![
        lock_bucket_step(name),
        StepView::Ask { question: QuestionView::TryCreateDir { at: Place::Bucket } },
    ]
}

/// How the removal of a bucket begins: its manifests are looked for.
pub open spec fn delete_bucket_opening(name: Seq<char>) -> Seq<StepView> {
    seq![
        lock_bucket_step(name),
        head_bucket_step(),
        StepView::Ask {
            question: QuestionView::Walk { at: Place::Current, instead: Place::Current },
        },
    ]
}

/// A bucket that was created: its entry and its directories are made durable.
pub open spec fn created_steps(fsync: bool) -> Seq<StepView> {
    root_sync(fsync) + infra_steps(fsync) + seq![
        StepView::Finish { outcome: OutcomeView::Nothing },
    ]
}

/// A bucket that was there before: what an earlier attempt may have left undone is made durable
/// before the request is answered.
pub open spec fn existing_steps(fsync: bool) -> Seq<StepView> {
    (if fsync {
        infra_steps(fsync) + root_sync(fsync)
    } else {
        Seq::empty()
    }).push(StepView::Fail { error: StorageError::BucketExists })
}

impl CasStore {
    /// Begins to create a bucket.
    pub fn create_bucket(&self, name: &str) -> (r: Plan)
        ensures
            r@ == (if is_bucket_name(name@) {
                create_bucket_opening(name@)
            } else {
                refusal(StorageError::InvalidBucket)
            }),
    {
        match validate_bucket_name(name) {
            Ok(_) => {
                let mut plan = Plan::new();
                plan.must(
                    Call::LockBucket { shard: bucket_lock_shard(name), exclusive: true },
                    Report::Io,
                );
                plan.ask(Question::TryCreateDir { at: Place::Bucket });
                assert(plan@ =~= create_bucket_opening(name@));
                plan
            },
            Err(e) => refuse(e),
        }
    }

    /// Looks for a bucket.
    pub fn head_bucket(&self, name: &str) -> (r: Plan)
        ensures
            r@ == (if is_bucket_name(name@) {
                seq![head_bucket_step(), StepView::Finish { outcome: OutcomeView::Nothing }]
            } else {
                refusal(StorageError::PathTraversal)
            }),
    {
        match validate_bucket_component(name) {
            Ok(_) => {
                let mut plan = Plan::new();
                push_head_bucket(&mut plan);
                plan.finish(Outcome::Nothing);
                assert(plan@ =~= seq![
                    head_bucket_step(),
                    StepView::Finish { outcome: OutcomeView::Nothing },
                ]);
                plan
            },
            Err(e) => refuse(e),
        }
    }

    /// Begins to remove a bucket.
    pub fn delete_bucket(&self, name: &str) -> (r: Plan)
        ensures
            r@ == (if is_bucket_name(name@) {
                delete_bucket_opening(name@)
            } else {
                refusal(StorageError::PathTraversal)
            }),
    {
        match validate_bucket_component(name) {
            Ok(_) => {
                let mut plan = Plan::new();
                plan.must(
                    Call::LockBucket { shard: bucket_lock_shard(name), exclusive: true },
                    Report::Io,
                );
                push_head_bucket(&mut plan);
                plan.ask(Question::Walk { at: Place::Current, instead: Place::Current });
                assert(plan@ =~= delete_bucket_opening(name@));
                plan
            },
            Err(e) => refuse(e),
        }
    }

    /// Begins to list the buckets.
    pub fn list_buckets(&self) -> (r: Plan)
        ensures
            r@ == seq![StepView::Ask { question: QuestionView::List { at: Place::DataRoot } }],
    {
        let mut plan = Plan::new();
        plan.ask(Question::List { at: Place::DataRoot });
        assert(plan@ =~= seq![
            StepView::Ask { question: QuestionView::List { at: Place::DataRoot } },
        ]);
        plan
    }
}

/// Goes on once the directory of a bucket was created, or turned out to be there.
pub fn bucket_created(env: &Env, result: Result<(), IoError>) -> (r: Result<Plan, StorageError>)
    ensures
        match result {
            Ok(_) => r matches Ok(plan) && plan@ == created_steps(env.fsync),
            Err(e) => if e.kind == IoErrorKind::AlreadyExists {
                r matches Ok(plan) && plan@ == existing_steps(env.fsync)
            } else {
                r == Err::<Plan, StorageError>(StorageError::Io(e))
            },
        },
{
    let mut plan = Plan::new();
    match result {
        Ok(_) => {
            push_root_sync(&mut plan, env.fsync);
            push_infra(&mut plan, env.fsync);
            plan.finish(Outcome::Nothing);
            assert(plan@ =~= created_steps(env.fsync));
        },
        Err(e) => {
            if e.kind != IoErrorKind::AlreadyExists {
                return Err(StorageError::Io(e));
            }
            if env.fsync {
                push_infra(&mut plan, env.fsync);
                push_root_sync(&mut plan, env.fsync);
            }
            plan.push(Step::Fail { error: StorageError::BucketExists });
            assert(plan@ =~= existing_steps(env.fsync));
        },
    }
    Ok(plan)
}

/// One of the files is a manifest.
pub open spec fn holds_manifest(rels: Seq<Seq<char>>) -> bool {
    exists|i: int| 0 <= i < rels.len() && decoded_key(#[trigger] rels[i]) is Some
}

/// Goes on with the removal of a bucket once its manifests were looked for: a bucket with an object
/// is kept.
pub fn bucket_walked(files: Result<Vec<String>, IoError>) -> (r: Result<Plan, StorageError>)
    ensures
        match files {
            Err(e) => r == Err::<Plan, StorageError>(StorageError::Io(e)),
            Ok(rels) => if holds_manifest(texts(rels@)) {
                r == Err::<Plan, StorageError>(StorageError::BucketNotEmpty)
            } else {
                r matches Ok(plan) && plan@ == seq![
                    StepView::Ask { question: QuestionView::ScanUploads { limit: usize::MAX } },
                ]
            },
        },
{
    let rels = match files {
        Ok(rels) => rels,
        Err(e) => return Err(StorageError::Io(e)),
    };
    let ghost all = texts(rels@);
    let mut i: usize = 0;
    while i < rels.len()
        invariant
            i <= rels@.len(),
            all == texts(rels@),
            files matches Ok(given) && given == rels,
            forall|j: int| 0 <= j < i ==> decoded_key(#[trigger] all[j]) is None,
        decreases rels@.len() - i,
    {
        assert(all[i as int] == rels@[i as int]@);
        if decode_relpath_to_key(rels[i].as_str()).is_some() {
            return Err(StorageError::BucketNotEmpty);
        }
        i = i + 1;
    }
    let mut plan = Plan::new();
    plan.ask(Question::ScanUploads { limit: usize::MAX });
    assert(plan@ =~= seq![
        StepView::Ask { question: QuestionView::ScanUploads { limit: usize::MAX } },
    ]);
    Ok(plan)
}

/// Whether there is an upload in progress: a directory with a record that can be read and that was
/// not marked as completed. The first entry that could not be read ends the search.
pub open spec fn in_flight(entries: Seq<Result<UploadDir, IoError>>) -> Result<bool, IoError>
    decreases entries.len(),
{
    if entries.len() == 0 {
        Ok(false)
    } else {
        match entries[0] {
            Err(e) => Err(e),
            Ok(d) => if d.is_dir && !d.completed && d.readable {
                Ok(true)
            } else {
                in_flight(entries.skip(1))
            },
        }
    }
}

/// Whether there is an upload in progress.
pub fn has_in_flight_upload(scan: &Result<Vec<Result<UploadDir, IoError>>, IoError>) -> (r: Result<
    bool,
    IoError,
>)
    ensures
        r == (match scan {
            Ok(entries) => in_flight(entries@),
            Err(e) => if e.kind == IoErrorKind::NotFound {
                Ok(false)
            } else {
                Err(*e)
            },
        }),
{
    let entries = match scan {
        Ok(entries) => entries,
        Err(e) => {
            if e.kind == IoErrorKind::NotFound {
                return Ok(false);
            }
            return Err(*e);
        },
    };
    let mut i: usize = 0;
    assert(entries@.skip(0) =~= entries@);
    while i < entries.len()
        invariant
            i <= entries@.len(),
            scan matches Ok(given) && given == entries,
            in_flight(entries@.skip(i as int)) == in_flight(entries@),
        decreases entries@.len() - i,
    {
        let ghost rest = entries@.skip(i as int);
        proof {
            assert(rest[0] == entries@[i as int]);
            assert(rest.skip(1) =~= entries@.skip(i + 1));
        }
        match &entries[i] {
            Err(e) => return Err(*e),
            Ok(d) => {
                if d.is_dir && !d.completed && d.readable {
                    return Ok(true);
                }
            },
        }
        i = i + 1;
    }
    Ok(false)
}

/// The bucket is removed with all that it holds, and that is made durable.
pub open spec fn removal_steps(fsync: bool) -> Seq<StepView> {
    seq![must_do(CallView::RemoveDirAll { at: Place::Bucket }, Report::Io)] + root_sync(fsync)
        + seq![StepView::Finish { outcome: OutcomeView::Nothing }]
}

/// Goes on with the removal of a bucket once its upload area was scanned: a bucket with an upload in
/// progress is kept.
pub fn bucket_scanned(env: &Env, scan: Result<Vec<Result<UploadDir, IoError>>, IoError>) -> (r: Result<
    Plan,
    StorageError,
>)
    ensures
        ({
            let found = match scan {
                Ok(entries) => in_flight(entries@),
                Err(e) => if e.kind == IoErrorKind::NotFound {
                    Ok(false)
                } else {
                    Err(e)
                },
            };
            match found {
                Err(e) => r == Err::<Plan, StorageError>(StorageError::Io(e)),
                Ok(true) => r == Err::<Plan, StorageError>(StorageError::BucketNotEmpty),
                Ok(false) => r matches Ok(plan) && plan@ == removal_steps(env.fsync),
            }
        }),
{
    match has_in_flight_upload(&scan) {
        Err(e) => Err(StorageError::Io(e)),
        Ok(true) => Err(StorageError::BucketNotEmpty),
        Ok(false) => {
            let mut plan = Plan::new();
            plan.must(Call::RemoveDirAll { at: Place::Bucket }, Report::Io);
            push_root_sync(&mut plan, env.fsync);
            plan.finish(Outcome::Nothing);
            assert(plan@ =~= removal_steps(env.fsync));
            Ok(plan)
        },
    }
}

/// The buckets in a listing of the data root, up to the first entry that could not be read.
pub open spec fn bucket_list(entries: Seq<Result<Entry, IoError>>) -> Seq<BucketInfoView>
    decreases entries.len(),
{
    if entries.len() == 0 {
        Seq::empty()
    } else {
        match entries[0] {
            Ok(e) => (if is_bucket_entry(e) {
                seq![BucketInfoView { name: e.name@, creation_unix: e.mtime }]
            } else {
                Seq::empty()
            }) + bucket_list(entries.skip(1)),
            Err(_) => Seq::empty(),
        }
    }
}

/// The names of the buckets.
pub open spec fn info_names(list: Seq<BucketInfoView>) -> Seq<Seq<char>> {
    Seq::new(list.len(), |i: int| list[i].name)
}

/// The same buckets in the order of their names.
pub open spec fn is_ordered_buckets(r: Seq<BucketInfoView>, list: Seq<BucketInfoView>) -> bool {
    r.to_multiset() == list.to_multiset() && info_names(r) == in_text_order(info_names(list))
}

/// Answers the request for the buckets once the data root was listed.
pub fn buckets_listed(listing: Result<Vec<Result<Entry, IoError>>, IoError>) -> (r: Result<
    Vec<BucketInfo>,
    StorageError,
>)
    ensures
        match listing {
            Ok(entries) => match first_error(entries@) {
                Some(e) => r == Err::<Vec<BucketInfo>, StorageError>(StorageError::Io(e)),
                None => r matches Ok(list) && is_ordered_buckets(
                    bucket_infos(list@),
                    bucket_list(entries@),
                ),
            },
            Err(e) => if e.kind == IoErrorKind::NotFound {
                r matches Ok(list) && list@.len() == 0
            } else {
                r == Err::<Vec<BucketInfo>, StorageError>(StorageError::Io(e))
            },
        },
{
    let mut out: Vec<BucketInfo> = Vec::new();
    let entries = match listing {
        Ok(entries) => entries,
        Err(e) => {
            if e.kind == IoErrorKind::NotFound {
                return Ok(out);
            }
            return Err(StorageError::Io(e));
        },
    };
    let mut i: usize = 0;
    assert(entries@.skip(0) =~= entries@);
    assert(bucket_infos(out@) + bucket_list(entries@) =~= bucket_list(entries@));
    while i < entries.len()
        invariant
            i <= entries@.len(),
            listing matches Ok(given) && given == entries,
            bucket_infos(out@) + bucket_list(entries@.skip(i as int)) == bucket_list(entries@),
            first_error(entries@.skip(i as int)) == first_error(entries@),
        decreases entries@.len() - i,
    {
        let ghost before = bucket_infos(out@);
        let ghost rest = entries@.skip(i as int);
        proof {
            assert(rest.skip(1) =~= entries@.skip(i + 1));
            assert(rest[0] == entries@[i as int]);
        }
        match &entries[i] {
            Ok(e) => {
                if bucket_entry(e) {
                    out.push(BucketInfo { name: e.name.clone(), creation_unix: e.mtime });
                    assert(bucket_infos(out@) =~= before.push(
                        BucketInfoView { name: e.name@, creation_unix: e.mtime },
                    ));
                }
                assert(bucket_infos(out@) + bucket_list(rest.skip(1)) =~= before + bucket_list(
                    rest,
                ));
            },
            Err(e) => return Err(StorageError::Io(*e)),
        }
        i = i + 1;
    }
    assert(bucket_infos(out@) + bucket_list(entries@.skip(i as int)) =~= bucket_infos(out@));
    let ghost all = out@;
    let sorted = sort_by_name(out);
    proof {
        let f = |b: BucketInfo| b@;
        lemma_same_views(sorted@, all, f);
        assert(bucket_infos(sorted@) =~= sorted@.map_values(f));
        assert(bucket_infos(all) =~= all.map_values(f));
        assert(info_names(bucket_infos(sorted@)) =~= names(sorted@));
        assert(info_names(bucket_infos(all)) =~= names(all));
    }
    Ok(sorted)
}

/// Answers the request for the buckets once the data root was listed.
pub fn answer_listing(listing: Result<Vec<Result<Entry, IoError>>, IoError>) -> (r: Result<
    Plan,
    StorageError,
>)
    ensures
        match listing {
            Ok(entries) => match first_error(entries@) {
                Some(e) => r == Err::<Plan, StorageError>(StorageError::Io(e)),
                None => r matches Ok(plan) && exists|b: Seq<BucketInfoView>|
                    #[trigger] is_ordered_buckets(b, bucket_list(entries@)) && plan@ == seq![
                        StepView::Finish { outcome: OutcomeView::Buckets { buckets: b } },
                    ],
            },
            Err(e) => if e.kind == IoErrorKind::NotFound {
                r matches Ok(plan) && plan@ == seq![
                    StepView::Finish { outcome: OutcomeView::Buckets { buckets: Seq::empty() } },
                ]
            } else {
                r == Err::<Plan, StorageError>(StorageError::Io(e))
            },
        },
{
    match buckets_listed(listing) {
        Ok(buckets) => {
            let ghost b = bucket_infos(buckets@);
            let mut plan = Plan::new();
            plan.finish(Outcome::Buckets { buckets });
            assert(plan@ =~= seq![
                StepView::Finish { outcome: OutcomeView::Buckets { buckets: b } },
            ]);
            proof {
                if listing is Err {
                    assert(b =~= Seq::empty());
                }
            }
            Ok(plan)
        },
        Err(e) => Err(e),
    }
}

} // verus!
