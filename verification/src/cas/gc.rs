//! Sweeps that are run on request: blobs that nothing names, and uploads that were given up.

use vstd::prelude::*;
use crate::blob::is_valid_blob_id;
use crate::cas::parts::{blobs_of_parts, read_part_refs, stored_table, table_blobs};
use crate::cas::recovery::{bucket_names, first_error, root_failure, BucketSweep};
use crate::cas::store::{
    head_bucket_step, push_head_bucket, push_reclaim, reclaim_steps, refusal, refuse,
    validate_bucket_component, CasStore,
};
use crate::cas::records::PartRefFileView;
use crate::manifest::{decode_relpath_to_key, decoded_key, Manifest, ManifestView};
use crate::outside::is_canonical_uuid;
use crate::plan::call::{
    Call, CallView, Entry, EntryKind, Outcome, OutcomeView, Question, QuestionView, RefEntry,
    UploadDir,
};
use crate::plan::place::Place;
use crate::plan::runner::{may, rule_may, Counter, OnError, Plan, Rule, Step, StepView};
use crate::sorting::{lemma_text_set, sort_text_set, strictly_ascend};
use crate::text::{
    before, lemma_text_order, lemma_text_transitive, pieces, same, split, text_before, texts,
};
use crate::types::{is_bucket_name, IoError, IoErrorKind, StorageError};

verus! {

/// The files that are manifests.
pub open spec fn manifest_files(rels: Seq<Seq<char>>) -> Seq<Seq<char>>
    decreases rels.len(),
{
    if rels.len() == 0 {
        Seq::empty()
    } else {
        let front = manifest_files(rels.drop_last());
        if decoded_key(rels.last()) is Some {
            front.push(rels.last())
        } else {
            front
        }
    }
}

/// The last component of a path.
pub open spec fn file_name(rel: Seq<char>) -> Seq<char> {
    split(rel, '/').last()
}

/// The blobs that are named so far, while the live manifests are read one after the other.
#[derive(Debug)]
pub struct Gathering {
    pub referenced: Vec<String>,
    pub files: Vec<String>,
    /// How many of them were read.
    pub next: usize,
}

/// The blobs that are named so far, while the part records of the uploads are read.
#[derive(Debug)]
pub struct GatheringParts {
    pub referenced: Vec<String>,
    pub uploads: Vec<String>,
    pub next: usize,
}

impl Gathering {
    /// Nothing was read yet, where these are the files of the tree of manifests.
    pub open spec fn begins(&self, rels: Seq<Seq<char>>) -> bool {
        &&& self.next == 0
        &&& self.referenced@.len() == 0
        &&& texts(self.files@) == manifest_files(rels)
    }

    /// Whether this becomes `next` once one more manifest was read.
    pub open spec fn grows_to(&self, m: ManifestView, next: Gathering) -> bool {
        &&& next.files == self.files
        &&& self.next < usize::MAX ==> next.next == self.next + 1
        &&& texts(next.referenced@) == texts(self.referenced@) + m.blobs()
    }

    /// The next manifest is read, or the uploads are looked for.
    pub open spec fn next_steps(&self) -> Seq<StepView> {
        seq![
            StepView::Ask {
                question: if self.next < self.files@.len() {
                    QuestionView::ReadManifest {
                        at: Place::CurrentFile { rel: self.files@[self.next as int]@ },
                    }
                } else {
                    QuestionView::List { at: Place::Arriving }
                },
            },
        ]
    }

    fn go_on(&self) -> (r: Plan)
        ensures
            r@ == self.next_steps(),
    {
        let mut plan = Plan::new();
        if self.next < self.files.len() {
            plan.ask(
                Question::ReadManifest {
                    at: Place::CurrentFile { rel: self.files[self.next].clone() },
                },
            );
        } else {
            plan.ask(Question::List { at: Place::Arriving });
        }
        assert(plan@ =~= self.next_steps());
        plan
    }

    /// Goes on once the tree of manifests was walked.
    pub fn walked(files: Result<Vec<String>, IoError>) -> (r: Result<
        (Gathering, Plan),
        StorageError,
    >)
        ensures
            match files {
                Err(e) => r == Err::<(Gathering, Plan), StorageError>(StorageError::Io(e)),
                Ok(rels) => {
                    &&& r matches Ok(p)
                    &&& p.0.begins(texts(rels@))
                    &&& p.1@ == p.0.next_steps()
                },
            },
    {
        let rels = match files {
            Ok(rels) => rels,
            Err(e) => return Err(StorageError::Io(e)),
        };
        let ghost all = texts(rels@);
        let mut found: Vec<String> = Vec::new();
        let mut i: usize = 0;
        assert(all.take(0) =~= Seq::empty());
        assert(texts(found@) =~= Seq::empty());
        while i < rels.len()
            invariant
                i <= rels@.len(),
                all == texts(rels@),
                files matches Ok(given) && given == rels,
                texts(found@) == manifest_files(all.take(i as int)),
            decreases rels@.len() - i,
        {
            proof {
                let t = all.take(i + 1);
                assert(t.drop_last() =~= all.take(i as int));
                assert(t.last() == rels@[i as int]@);
            }
            if decode_relpath_to_key(rels[i].as_str()).is_some() {
                let ghost kept = texts(found@);
                found.push(rels[i].clone());
                assert(texts(found@) =~= kept.push(rels@[i as int]@));
            }
            i = i + 1;
        }
        assert(all.take(i as int) =~= all);
        let g = Gathering { referenced: Vec::new(), files: found, next: 0 };
        let plan = g.go_on();
        Ok((g, plan))
    }

    /// Goes on once a manifest was read. One that cannot be read ends the sweep: what it names
    /// could not be told.
    pub fn read(self, live: Result<Manifest, IoError>) -> (r: Result<
        (Gathering, Plan),
        StorageError,
    >)
        ensures
            match live {
                Err(e) => r == Err::<(Gathering, Plan), StorageError>(StorageError::Io(e)),
                Ok(m) => {
                    &&& r matches Ok(p)
                    &&& self.grows_to(m@, p.0)
                    &&& p.1@ == p.0.next_steps()
                },
            },
    {
        let m = match live {
            Ok(m) => m,
            Err(e) => return Err(StorageError::Io(e)),
        };
        let ghost before = texts(self.referenced@);
        let mut g = self;
        let mut ids = m.blob_ids();
        let ghost added = texts(ids@);
        g.referenced.append(&mut ids);
        assert(texts(g.referenced@) =~= before + added);
        if g.next < usize::MAX {
            g.next = g.next + 1;
        }
        let plan = g.go_on();
        Ok((g, plan))
    }
}

/// The entries that may be directories of uploads: one whose kind could not be read may be one.
pub open spec fn upload_candidates(entries: Seq<Result<Entry, IoError>>) -> Seq<Seq<char>>
    decreases entries.len(),
{
    if entries.len() == 0 {
        Seq::empty()
    } else {
        let front = upload_candidates(entries.drop_last());
        match entries.last() {
            Ok(e) => if e.kind is None || e.kind == Some(EntryKind::Directory) {
                front.push(e.name@)
            } else {
                front
            },
            Err(_) => front,
        }
    }
}

/// Why the uploads in progress cannot be told, if they cannot. An upload area that is not there
/// holds none.
pub open spec fn uploads_unknown(listing: Result<Vec<Result<Entry, IoError>>, IoError>) -> Option<
    IoError,
> {
    match listing {
        Ok(entries) => first_error(entries@),
        Err(e) => if e.kind == IoErrorKind::NotFound {
            None
        } else {
            Some(e)
        },
    }
}

impl GatheringParts {
    /// The manifests were read, and no part record was read yet.
    pub open spec fn begins(&self, before: Gathering) -> bool {
        self.referenced == before.referenced && self.next == 0
    }

    /// Whether this becomes `next` once the part records of one more upload were read.
    pub open spec fn grows_to(
        &self,
        table: Seq<PartRefFileView>,
        next: GatheringParts,
    ) -> bool {
        &&& next.uploads == self.uploads
        &&& self.next < usize::MAX ==> next.next == self.next + 1
        &&& texts(next.referenced@) == texts(self.referenced@) + table_blobs(table)
    }

    /// The next part records are read, or the blobs are walked.
    pub open spec fn next_steps(&self) -> Seq<StepView> {
        seq![
            StepView::Ask {
                question: if self.next < self.uploads@.len() {
                    QuestionView::ReadPartRefs { id: self.uploads@[self.next as int]@ }
                } else {
                    QuestionView::Walk { at: Place::Blobs, instead: Place::Blobs }
                },
            },
        ]
    }

    fn go_on(&self) -> (r: Plan)
        ensures
            r@ == self.next_steps(),
    {
        let mut plan = Plan::new();
        if self.next < self.uploads.len() {
            plan.ask(Question::ReadPartRefs { id: self.uploads[self.next].clone() });
        } else {
            plan.ask(Question::Walk { at: Place::Blobs, instead: Place::Blobs });
        }
        assert(plan@ =~= self.next_steps());
        plan
    }

    /// Goes on once the uploads were looked for. Where they cannot be told the sweep ends: what
    /// they name could not be told either.
    pub fn listed(
        before: Gathering,
        listing: Result<Vec<Result<Entry, IoError>>, IoError>,
    ) -> (r: (GatheringParts, Plan))
        ensures
            r.0.begins(before),
            texts(r.0.uploads@) == (match listing {
                Ok(entries) => upload_candidates(entries@),
                Err(_) => Seq::empty(),
            }),
            r.1@ == (match uploads_unknown(listing) {
                Some(e) => refusal(StorageError::Io(e)),
                None => r.0.next_steps(),
            }),
    {
        let mut uploads: Vec<String> = Vec::new();
        let mut failure: Option<IoError> = None;
        assert(texts(uploads@) =~= Seq::empty());
        match &listing {
            Ok(entries) => {
                let mut i: usize = 0;
                assert(entries@.take(0) =~= Seq::empty());
                assert(entries@.skip(0) =~= entries@);
                while i < entries.len()
                    invariant
                        i <= entries@.len(),
                        texts(uploads@) == upload_candidates(entries@.take(i as int)),
                        first_error(entries@) == (match failure {
                            Some(e) => Some(e),
                            None => first_error(entries@.skip(i as int)),
                        }),
                    decreases entries@.len() - i,
                {
                    proof {
                        let t = entries@.take(i + 1);
                        assert(t.drop_last() =~= entries@.take(i as int));
                        assert(t.last() == entries@[i as int]);
                        let rest = entries@.skip(i as int);
                        assert(rest[0] == entries@[i as int]);
                        assert(rest.skip(1) =~= entries@.skip(i + 1));
                    }
                    match &entries[i] {
                        Ok(e) => {
                            let candidate = match e.kind {
                                None => true,
                                Some(EntryKind::Directory) => true,
                                _ => false,
                            };
                            if candidate {
                                let ghost found = texts(uploads@);
                                uploads.push(e.name.clone());
                                assert(texts(uploads@) =~= found.push(e.name@));
                            }
                        },
                        Err(e) => {
                            if failure.is_none() {
                                failure = Some(*e);
                            }
                        },
                    }
                    i = i + 1;
                }
                assert(entries@.take(i as int) =~= entries@);
            },
            Err(e) => {
                if e.kind != IoErrorKind::NotFound {
                    failure = Some(*e);
                }
            },
        }
        let g = GatheringParts { referenced: before.referenced, uploads, next: 0 };
        let plan = match failure {
            Some(e) => refuse(StorageError::Io(e)),
            None => g.go_on(),
        };
        (g, plan)
    }

    /// Goes on once the part records of an upload were read. Records that cannot be read end the
    /// sweep: what they name could not be told.
    pub fn read(self, refs: Result<Vec<RefEntry>, IoError>) -> (r: (GatheringParts, Plan))
        ensures
            match stored_table(refs) {
                Ok(table) => self.grows_to(table, r.0) && r.1@ == r.0.next_steps(),
                Err(e) => {
                    &&& r.0.uploads == self.uploads
                    &&& self.next < usize::MAX ==> r.0.next == self.next + 1
                    &&& r.0.referenced == self.referenced
                    &&& r.1@ == refusal(e)
                },
            },
    {
        let ghost before = texts(self.referenced@);
        let mut g = self;
        if g.next < usize::MAX {
            g.next = g.next + 1;
        }
        match read_part_refs(refs) {
            Ok(table) => {
                let mut ids = blobs_of_parts(&table);
                let ghost added = texts(ids@);
                g.referenced.append(&mut ids);
                assert(texts(g.referenced@) =~= before + added);
                let plan = g.go_on();
                (g, plan)
            },
            Err(e) => (g, refuse(e)),
        }
    }
}

/// The removal of a blob that nothing names.
pub open spec fn orphan_removal(rel: Seq<char>) -> StepView {
    StepView::Do {
        call: CallView::RemoveFile { at: Place::BlobFile { rel } },
        rule: Rule {
            count: Some(Counter::Blobs),
            missing_ok: false,
            on_error: OnError::Ignore,
            if_clean: false,
        },
    }
}

/// A file among the blobs that is a blob and that nothing names.
pub open spec fn is_orphan(rel: Seq<char>, referenced: Seq<Seq<char>>) -> bool {
    is_canonical_uuid(file_name(rel)) && !referenced.contains(file_name(rel))
}

/// The blobs that nothing names are removed.
pub open spec fn orphan_steps(rels: Seq<Seq<char>>, referenced: Seq<Seq<char>>) -> Seq<StepView>
    decreases rels.len(),
{
    if rels.len() == 0 {
        Seq::empty()
    } else {
        let front = orphan_steps(rels.drop_last(), referenced);
        if is_orphan(rels.last(), referenced) {
            front.push(orphan_removal(rels.last()))
        } else {
            front
        }
    }
}

/// Whether an ordered list holds a text.
fn holds(list: &Vec<String>, text: &str) -> (r: bool)
    requires
        strictly_ascend(texts(list@)),
    ensures
        r == texts(list@).contains(text@),
{
    let ghost all = texts(list@);
    let mut low: usize = 0;
    let mut high: usize = list.len();
    while low < high
        invariant
            low <= high <= list@.len(),
            all == texts(list@),
            strictly_ascend(all),
            forall|i: int| 0 <= i < low ==> text_before(#[trigger] all[i], text@),
            forall|i: int| high <= i < all.len() ==> text_before(text@, #[trigger] all[i]),
        decreases high - low,
    {
        let mid: usize = low + (high - low) / 2;
        assert(all[mid as int] == list@[mid as int]@);
        if same(list[mid].as_str(), text) {
            assert(all[mid as int] == text@);
            return true;
        }
        if before(list[mid].as_str(), text) {
            assert forall|i: int| 0 <= i < mid + 1 implies text_before(
                #[trigger] all[i],
                text@,
            ) by {
                if i < mid {
                    lemma_text_transitive(all[i], all[mid as int], text@);
                }
            }
            low = mid + 1;
        } else {
            proof {
                lemma_text_order(all[mid as int], text@);
            }
            assert forall|i: int| mid <= i < all.len() implies text_before(
                text@,
                #[trigger] all[i],
            ) by {
                if i > mid {
                    lemma_text_transitive(text@, all[mid as int], all[i]);
                }
            }
            high = mid;
        }
    }
    proof {
        if all.contains(text@) {
            let i = choose|i: int| 0 <= i < all.len() && all[i] == text@;
            lemma_text_order(text@, text@);
        }
    }
    false
}

impl GatheringParts {
    /// Removes the blobs that nothing names, now that the blobs were walked.
    pub fn sweep(self, files: Result<Vec<String>, IoError>) -> (r: Result<Plan, StorageError>)
        ensures
            match files {
                Err(e) => r == Err::<Plan, StorageError>(StorageError::Io(e)),
                Ok(rels) => r matches Ok(plan) && plan@ == orphan_steps(
                    texts(rels@),
                    texts(self.referenced@),
                ).push(StepView::Finish { outcome: OutcomeView::Nothing }),
            },
    {
        let rels = match files {
            Ok(rels) => rels,
            Err(e) => return Err(StorageError::Io(e)),
        };
        let ghost named = texts(self.referenced@);
        let set = sort_text_set(self.referenced);
        proof {
            lemma_text_set(named);
        }
        let ghost all = texts(rels@);
        let mut plan = Plan::new();
        let mut i: usize = 0;
        assert(all.take(0) =~= Seq::empty());
        while i < rels.len()
            invariant
                i <= rels@.len(),
                all == texts(rels@),
                files matches Ok(given) && given == rels,
                strictly_ascend(texts(set@)),
                forall|x: Seq<char>| #[trigger] texts(set@).contains(x) <==> named.contains(x),
                plan@ == orphan_steps(all.take(i as int), named),
            decreases rels@.len() - i,
        {
            proof {
                let t = all.take(i + 1);
                assert(t.drop_last() =~= all.take(i as int));
                assert(t.last() == rels@[i as int]@);
                crate::text::lemma_split_pieces(rels@[i as int]@, '/');
            }
            let parts = pieces(rels[i].as_str(), '/');
            assert(texts(parts@).len() == parts.len());
            let last: usize = parts.len() - 1;
            assert(texts(parts@)[last as int] == parts@[last as int]@);
            let name = parts[last].as_str();
            assert(name@ == file_name(rels@[i as int]@));
            if is_valid_blob_id(name) && !holds(&set, name) {
                plan.push(
                    Step::Do {
                        call: Call::RemoveFile { at: Place::BlobFile { rel: rels[i].clone() } },
                        rule: Rule {
                            count: Some(Counter::Blobs),
                            missing_ok: false,
                            on_error: OnError::Ignore,
                            if_clean: false,
                        },
                    },
                );
            } else {
                assert(!is_orphan(rels@[i as int]@, named)) by {
                    assert(texts(set@).contains(name@) <==> named.contains(name@));
                }
            }
            i = i + 1;
        }
        assert(all.take(i as int) =~= all);
        plan.finish(Outcome::Nothing);
        Ok(plan)
    }
}

impl CasStore {
    /// Begins to remove the blobs of a bucket that neither a live manifest nor an upload in
    /// progress names. To be run only while nothing is written.
    pub fn gc_orphan_blobs(&self, bucket: &str) -> (r: Plan)
        ensures
            r@ == (if is_bucket_name(bucket@) {
                seq![
                    head_bucket_step(),
                    StepView::Ask {
                        question: QuestionView::Walk { at: Place::Current, instead: Place::Current },
                    },
                ]
            } else {
                refusal(StorageError::PathTraversal)
            }),
    {
        match validate_bucket_component(bucket) {
            Ok(_) => {
                let mut plan = Plan::new();
                push_head_bucket(&mut plan);
                plan.ask(Question::Walk { at: Place::Current, instead: Place::Current });
                assert(plan@ =~= seq![
                    head_bucket_step(),
                    StepView::Ask {
                        question: QuestionView::Walk { at: Place::Current, instead: Place::Current },
                    },
                ]);
                plan
            },
            Err(e) => refuse(e),
        }
    }

    /// Begins to remove old uploads, over all buckets of the data root. Each of them is swept by
    /// `gc_abandoned_uploads_bucket`; the sweep counts the uploads that were removed.
    pub fn gc_abandoned_uploads(
        &self,
        listing: Result<Vec<Result<Entry, IoError>>, IoError>,
    ) -> (r: BucketSweep)
        ensures
            texts(r.buckets@) == (match listing {
                Ok(entries) => bucket_names(entries@),
                Err(_) => Seq::empty(),
            }),
            r.failure == root_failure(listing),
            r.begins(),
    {
        BucketSweep::new(listing)
    }

    /// Begins to remove the uploads of a bucket that are older than `max_age` nanoseconds.
    pub fn gc_abandoned_uploads_bucket(&self, max_age: u128) -> (r: (Reaping, Plan))
        ensures
            r.0.max_age == max_age,
            r.1@ == seq![
                StepView::Ask { question: QuestionView::ScanUploads { limit: usize::MAX } },
            ],
    {
        let mut plan = Plan::new();
        plan.ask(Question::ScanUploads { limit: usize::MAX });
        assert(plan@ =~= seq![
            StepView::Ask { question: QuestionView::ScanUploads { limit: usize::MAX } },
        ]);
        (Reaping { max_age }, plan)
    }
}

/// A removal of old uploads, while the upload area is scanned.
#[derive(Debug)]
pub struct Reaping {
    /// In nanoseconds.
    pub max_age: u128,
}

/// Old uploads that are removed one after the other.
#[derive(Debug)]
pub struct ReapingOne {
    pub uploads: Vec<String>,
    /// How many of them were removed.
    pub next: usize,
    /// The error that ended the scan.
    pub failure: Option<IoError>,
}

/// The uploads that are older than that, up to the first entry that could not be read. A directory
/// without a record that can be read is no upload.
pub open spec fn abandoned(entries: Seq<Result<UploadDir, IoError>>, max_age: u128) -> Seq<Seq<char>>
    decreases entries.len(),
{
    if entries.len() == 0 {
        Seq::empty()
    } else {
        match entries[0] {
            Ok(d) => (if d.is_dir && d.readable && (d.age matches Some(a) && a > max_age) {
                seq![d.name@]
            } else {
                Seq::empty()
            }) + abandoned(entries.skip(1), max_age),
            Err(_) => Seq::empty(),
        }
    }
}

/// The first error in a scan.
pub open spec fn scan_error(entries: Seq<Result<UploadDir, IoError>>) -> Option<IoError>
    decreases entries.len(),
{
    if entries.len() == 0 {
        None
    } else {
        match entries[0] {
            Ok(_) => scan_error(entries.skip(1)),
            Err(e) => Some(e),
        }
    }
}

impl ReapingOne {
    /// The parts of the next upload are read, or the sweep ends.
    pub open spec fn next_steps(&self) -> Seq<StepView> {
        seq![
            if self.next < self.uploads@.len() {
                StepView::Ask {
                    question: QuestionView::ReadPartRefs { id: self.uploads@[self.next as int]@ },
                }
            } else {
                match self.failure {
                    Some(e) => StepView::Fail { error: StorageError::Io(e) },
                    None => StepView::Finish { outcome: OutcomeView::Nothing },
                }
            },
        ]
    }

    fn push_next(&self, plan: &mut Plan)
        ensures
            final(plan)@ == old(plan)@ + self.next_steps(),
    {
        if self.next < self.uploads.len() {
            plan.ask(Question::ReadPartRefs { id: self.uploads[self.next].clone() });
        } else {
            match self.failure {
                Some(e) => {
                    plan.push(Step::Fail { error: StorageError::Io(e) });
                },
                None => {
                    plan.finish(Outcome::Nothing);
                },
            }
        }
        assert(plan@ =~= old(plan)@ + self.next_steps());
    }

    /// Removes an upload, now that its parts were read or could not be, and goes on.
    pub fn remove(self, refs: Result<Vec<RefEntry>, IoError>) -> (r: (ReapingOne, Plan))
        ensures
            r.0.uploads == self.uploads,
            r.0.failure == self.failure,
            self.next < self.uploads@.len() ==> r.0.next == self.next + 1 && r.1@ == reap_steps(
                self.uploads@[self.next as int]@,
                refs,
            ) + r.0.next_steps(),
            self.next >= self.uploads@.len() ==> r.0 == self && r.1@ == self.next_steps(),
    {
        let mut plan = Plan::new();
        if self.next >= self.uploads.len() {
            self.push_next(&mut plan);
            assert(plan@ =~= self.next_steps());
            return (self, plan);
        }
        let blobs: Vec<String> = match read_part_refs(refs) {
            Ok(table) => blobs_of_parts(&table),
            Err(_) => Vec::new(),
        };
        proof {
            if stored_table(refs) is Err {
                assert(texts(blobs@) =~= Seq::empty());
            }
        }
        push_reclaim(&mut plan, &blobs, rule_may());
        plan.push(
            Step::Do {
                call: Call::RemoveDirAll {
                    at: Place::Upload { id: self.uploads[self.next].clone() },
                },
                rule: Rule {
                    count: Some(Counter::Uploads),
                    missing_ok: false,
                    on_error: OnError::Ignore,
                    if_clean: false,
                },
            },
        );
        assert(plan@ =~= reap_steps(self.uploads@[self.next as int]@, refs));
        let r = ReapingOne {
            uploads: self.uploads,
            next: self.next + 1,
            failure: self.failure,
        };
        r.push_next(&mut plan);
        (r, plan)
    }
}

/// The blobs of the parts are removed, then the directory of the upload.
pub open spec fn reap_steps(id: Seq<char>, refs: Result<Vec<RefEntry>, IoError>) -> Seq<StepView> {
    reclaim_steps(
        match stored_table(refs) {
            Ok(table) => table_blobs(table),
            Err(_) => Seq::empty(),
        },
        may(),
    ).push(
        StepView::Do {
            call: CallView::RemoveDirAll { at: Place::Upload { id } },
            rule: Rule {
                count: Some(Counter::Uploads),
                missing_ok: false,
                on_error: OnError::Ignore,
                if_clean: false,
            },
        },
    )
}

impl Reaping {
    /// Goes on once the upload area was scanned.
    pub fn scanned(
        self,
        scan: Result<Vec<Result<UploadDir, IoError>>, IoError>,
    ) -> (r: Result<(ReapingOne, Plan), StorageError>)
        ensures
            match scan {
                Ok(entries) => {
                    &&& r matches Ok(p)
                    &&& p.0.next == 0
                    &&& p.0.failure == scan_error(entries@)
                    &&& texts(p.0.uploads@) == abandoned(entries@, self.max_age)
                    &&& p.1@ == p.0.next_steps()
                },
                Err(e) => if e.kind == IoErrorKind::NotFound {
                    r matches Ok(p) && p.0.next == 0 && p.0.failure is None && p.0.uploads@.len()
                        == 0 && p.1@ == p.0.next_steps()
                } else {
                    r == Err::<(ReapingOne, Plan), StorageError>(StorageError::Io(e))
                },
            },
    {
        let mut uploads: Vec<String> = Vec::new();
        let mut failure: Option<IoError> = None;
        match &scan {
            Ok(entries) => {
                let mut i: usize = 0;
                let mut more = true;
                assert(entries@.skip(0) =~= entries@);
                assert(texts(uploads@) + abandoned(entries@, self.max_age) =~= abandoned(
                    entries@,
                    self.max_age,
                ));
                while more && i < entries.len()
                    invariant
                        i <= entries@.len(),
                        more ==> failure is None,
                        more ==> texts(uploads@) + abandoned(entries@.skip(i as int), self.max_age)
                            == abandoned(entries@, self.max_age),
                        more ==> scan_error(entries@.skip(i as int)) == scan_error(entries@),
                        !more ==> texts(uploads@) == abandoned(entries@, self.max_age) && failure
                            == scan_error(entries@),
                    decreases entries@.len() - i,
                {
                    let ghost before = texts(uploads@);
                    let ghost rest = entries@.skip(i as int);
                    proof {
                        assert(rest.skip(1) =~= entries@.skip(i + 1));
                        assert(rest[0] == entries@[i as int]);
                    }
                    match &entries[i] {
                        Ok(d) => {
                            let old_enough = match d.age {
                                Some(a) => a > self.max_age,
                                None => false,
                            };
                            if d.is_dir && d.readable && old_enough {
                                uploads.push(d.name.clone());
                                assert(texts(uploads@) =~= before.push(d.name@));
                            }
                            assert(texts(uploads@) + abandoned(rest.skip(1), self.max_age)
                                =~= before + abandoned(rest, self.max_age));
                        },
                        Err(e) => {
                            assert(texts(uploads@) + abandoned(rest, self.max_age)
                                =~= texts(uploads@));
                            failure = Some(*e);
                            more = false;
                        },
                    }
                    i = i + 1;
                }
                proof {
                    if more {
                        assert(texts(uploads@) + abandoned(entries@.skip(i as int), self.max_age)
                            =~= texts(uploads@));
                    }
                }
            },
            Err(e) => {
                if e.kind != IoErrorKind::NotFound {
                    return Err(StorageError::Io(*e));
                }
            },
        }
        let r = ReapingOne { uploads, next: 0, failure };
        let mut plan = Plan::new();
        r.push_next(&mut plan);
        assert(plan@ =~= r.next_steps());
        Ok((r, plan))
    }
}

} // verus!
