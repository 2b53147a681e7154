//! Applying journals, and the sweep that a restart begins with.

use vstd::prelude::*;
use crate::blob::is_valid_blob_id;
use crate::cas::records::{Journal, JournalMode, JournalView, ReclaimStats, RecoveryStats};
use crate::cas::store::CasStore;
use crate::cas::objects::found;
use crate::manifest::{Manifest, ManifestView};
use crate::outside::is_canonical_uuid;
use crate::plan::call::{
    Call, CallView, Entry, EntryKind, Outcome, OutcomeView, Question, QuestionView, Report,
};
use crate::plan::place::Place;
use crate::plan::runner::{
    no_tallies, Counter, OnError, Plan, Rule, Step, StepView, Tallies,
};
use crate::text::{ends_with, owned, same, starts_with, texts};
use crate::types::{IoError, IoErrorKind, StorageError};

verus! {

/// Whether the commit that a journal belongs to took place: a new version carries the nonce of
/// the journal, a deleted object is gone.
pub open spec fn landed(journal: JournalView, live: Option<ManifestView>) -> bool {
    match journal.mode {
        JournalMode::Publish => live matches Some(m) && m.commit_nonce == journal.commit_nonce,
        JournalMode::Delete => live is None,
    }
}

/// How the removal of a journaled blob is taken.
pub open spec fn counted_reclaim() -> Rule {
    Rule {
        count: Some(Counter::Blobs),
        missing_ok: true,
        on_error: OnError::Taint,
        if_clean: false,
    }
}

/// The blobs that a journal lists are removed, as far as they are there. An id that names no blob
/// is passed over.
pub open spec fn journaled_steps(blobs: Seq<Seq<char>>) -> Seq<StepView>
    decreases blobs.len(),
{
    if blobs.len() == 0 {
        Seq::empty()
    } else {
        let front = journaled_steps(blobs.drop_last());
        if is_canonical_uuid(blobs.last()) {
            front.push(
                StepView::Do {
                    call: CallView::RemoveExisting { at: Place::Blob { id: blobs.last() } },
                    rule: counted_reclaim(),
                },
            )
        } else {
            front
        }
    }
}

fn push_journaled(plan: &mut Plan, blobs: &Vec<String>)
    ensures
        final(plan)@ == old(plan)@ + journaled_steps(texts(blobs@)),
{
    let ghost all = texts(blobs@);
    let mut i: usize = 0;
    assert(all.take(0) =~= Seq::empty());
    assert(plan@ =~= old(plan)@ + journaled_steps(all.take(0)));
    while i < blobs.len()
        invariant
            i <= blobs@.len(),
            all == texts(blobs@),
            plan@ == old(plan)@ + journaled_steps(all.take(i as int)),
        decreases blobs@.len() - i,
    {
        proof {
            assert(all.take(i + 1).drop_last() =~= all.take(i as int));
            assert(all.take(i + 1).last() == blobs@[i as int]@);
        }
        if is_valid_blob_id(blobs[i].as_str()) {
            plan.push(
                Step::Do {
                    call: Call::RemoveExisting { at: Place::Blob { id: blobs[i].clone() } },
                    rule: Rule {
                        count: Some(Counter::Blobs),
                        missing_ok: true,
                        on_error: OnError::Taint,
                        if_clean: false,
                    },
                },
            );
            assert(plan@ =~= old(plan)@ + journaled_steps(all.take(i + 1)));
        }
        i = i + 1;
    }
    assert(all.take(i as int) =~= all);
}

/// The journal is removed, unless a blob it lists is still there.
pub open spec fn journal_cleanup(name: Seq<char>) -> StepView {
    StepView::Do {
        call: CallView::RemoveFile { at: Place::Journal { name } },
        rule: Rule {
            count: Some(Counter::Journals),
            missing_ok: true,
            on_error: OnError::Fail(Report::Io),
            if_clean: true,
        },
    }
}

/// A journal is applied: where its commit took place the blobs are removed, and then it is removed
/// itself. Where it did not, the blobs are not touched.
pub open spec fn apply_steps(
    name: Seq<char>,
    journal: JournalView,
    live: Option<ManifestView>,
) -> Seq<StepView> {
    (if landed(journal, live) {
        journaled_steps(journal.blobs)
    } else {
        Seq::empty()
    }).push(journal_cleanup(name))
}

/// The next journal is read, or the sweep ends.
pub open spec fn next_journal(names: Seq<Seq<char>>, at: int) -> Seq<StepView> {
    if 0 <= at < names.len() {
        seq![
            StepView::Ask {
                question: QuestionView::ReadJournal { at: Place::Journal { name: names[at] } },
            },
        ]
    } else {
        seq![StepView::Finish { outcome: OutcomeView::Nothing }]
    }
}

/// Journals that are applied one after the other; the one called `name` is being read.
#[derive(Debug)]
pub struct Applying {
    pub name: String,
    pub names: Vec<String>,
    /// Where the journals that follow begin in `names`.
    pub next: usize,
}

/// A journal that waits for the live version of its key.
#[derive(Debug)]
pub struct Deciding {
    pub name: String,
    pub journal: Journal,
    pub names: Vec<String>,
    pub next: usize,
}

/// The sweep of a bucket, while its upload area is listed.
#[derive(Debug)]
pub struct Sweeping {
    /// Whether the journals follow.
    pub journals: bool,
}

/// The state of a sweep that goes on with the journal at `at`.
pub open spec fn goes_on(state: Option<Applying>, names: Seq<Seq<char>>, at: int) -> bool {
    match state {
        Some(a) => 0 <= at < names.len() && a.name@ == names[at] && texts(a.names@) == names
            && a.next == at + 1,
        None => !(0 <= at < names.len()),
    }
}

/// Goes on with the journal at `at`.
fn next_apply(plan: &mut Plan, names: Vec<String>, at: usize) -> (r: Option<Applying>)
    ensures
        final(plan)@ == old(plan)@ + next_journal(texts(names@), at as int),
        goes_on(r, texts(names@), at as int),
{
    if at < names.len() {
        let name = names[at].clone();
        plan.ask(Question::ReadJournal { at: Place::Journal { name: name.clone() } });
        assert(plan@ =~= old(plan)@ + next_journal(texts(names@), at as int));
        Some(Applying { name, names, next: at + 1 })
    } else {
        plan.finish(Outcome::Nothing);
        assert(plan@ =~= old(plan)@ + next_journal(texts(names@), at as int));
        None
    }
}

impl Applying {
    /// Goes on once the journal was read. One that is gone or cannot be read is passed over.
    pub fn read(self, result: Result<Journal, IoError>) -> (r: (
        Result<Deciding, Option<Applying>>,
        Plan,
    ))
        ensures
            match result {
                Ok(j) => {
                    &&& r.0 matches Ok(d)
                    &&& d.name == self.name
                    &&& d.names == self.names
                    &&& d.next == self.next
                    &&& d.journal == j
                    &&& r.1@ == seq![
                        StepView::Ask {
                            question: QuestionView::ReadManifest {
                                at: Place::Manifest { key: j@.supersedes_key },
                            },
                        },
                    ]
                },
                Err(_) => {
                    &&& r.0 matches Err(state)
                    &&& goes_on(state, texts(self.names@), self.next as int)
                    &&& r.1@ == next_journal(texts(self.names@), self.next as int)
                },
            },
    {
        let mut plan = Plan::new();
        match result {
            Ok(journal) => {
                plan.ask(
                    Question::ReadManifest {
                        at: Place::Manifest { key: journal.supersedes_key.clone() },
                    },
                );
                assert(plan@ =~= seq![
                    StepView::Ask {
                        question: QuestionView::ReadManifest {
                            at: Place::Manifest { key: journal@.supersedes_key },
                        },
                    },
                ]);
                (
                    Ok(
                        Deciding {
                            name: self.name,
                            journal,
                            names: self.names,
                            next: self.next,
                        },
                    ),
                    plan,
                )
            },
            Err(_) => {
                let state = next_apply(&mut plan, self.names, self.next);
                assert(plan@ =~= next_journal(texts(self.names@), self.next as int));
                (Err(state), plan)
            },
        }
    }
}

impl Deciding {
    /// Applies the journal once the live version of its key was read, or turned out not to be
    /// there, and goes on with the next one.
    pub fn apply(self, live: Result<Manifest, IoError>) -> (r: Result<
        (Option<Applying>, Plan),
        StorageError,
    >)
        ensures
            match live {
                Err(e) if e.kind != IoErrorKind::NotFound => r == Err::<
                    (Option<Applying>, Plan),
                    StorageError,
                >(StorageError::Io(e)),
                _ => {
                    &&& r matches Ok(p)
                    &&& goes_on(p.0, texts(self.names@), self.next as int)
                    &&& p.1@ == apply_steps(self.name@, self.journal@, found(live)).push(
                        StepView::Reset,
                    ) + next_journal(texts(self.names@), self.next as int)
                },
            },
    {
        let current: Option<Manifest> = match live {
            Ok(m) => Some(m),
            Err(e) => if e.kind == IoErrorKind::NotFound {
                None
            } else {
                return Err(StorageError::Io(e));
            },
        };
        let execute = match self.journal.mode {
            JournalMode::Publish => match &current {
                Some(m) => same(m.commit_nonce.as_str(), self.journal.commit_nonce.as_str()),
                None => false,
            },
            JournalMode::Delete => current.is_none(),
        };
        assert(execute == landed(self.journal@, found(live)));
        let mut plan = Plan::new();
        if execute {
            push_journaled(&mut plan, &self.journal.blobs);
        }
        plan.push(
            Step::Do {
                call: Call::RemoveFile { at: Place::Journal { name: self.name.clone() } },
                rule: Rule {
                    count: Some(Counter::Journals),
                    missing_ok: true,
                    on_error: OnError::Fail(Report::Io),
                    if_clean: true,
                },
            },
        );
        assert(plan@ =~= apply_steps(self.name@, self.journal@, found(live)));
        plan.push(Step::Reset);
        let state = next_apply(&mut plan, self.names, self.next);
        Ok((state, plan))
    }
}

/// The names in a listing up to the first entry that could not be read.
pub open spec fn readable(entries: Seq<Result<Entry, IoError>>) -> Seq<Seq<char>>
    decreases entries.len(),
{
    if entries.len() == 0 {
        Seq::empty()
    } else {
        match entries[0] {
            Ok(e) => seq![e.name@] + readable(entries.skip(1)),
            Err(_) => Seq::empty(),
        }
    }
}

/// The first error in a listing.
pub open spec fn first_error(entries: Seq<Result<Entry, IoError>>) -> Option<IoError>
    decreases entries.len(),
{
    if entries.len() == 0 {
        None
    } else {
        match entries[0] {
            Ok(_) => first_error(entries.skip(1)),
            Err(e) => Some(e),
        }
    }
}

/// The names that end with `suffix`.
pub open spec fn with_suffix(names: Seq<Seq<char>>, suffix: Seq<char>) -> Seq<Seq<char>> {
    names.filter(|name: Seq<char>| suffix.is_suffix_of(name))
}

/// How the removal of a staged manifest is taken.
pub open spec fn staged_rule() -> Rule {
    Rule {
        count: Some(Counter::Staged),
        missing_ok: false,
        on_error: OnError::Ignore,
        if_clean: false,
    }
}

/// The removal of staged manifests.
pub open spec fn unstage_steps(names: Seq<Seq<char>>) -> Seq<StepView> {
    Seq::new(
        names.len(),
        |i: int|
            StepView::Do {
                call: CallView::RemoveFile { at: Place::Staged { name: names[i] } },
                rule: staged_rule(),
            },
    )
}

/// The names in a listing that end with `suffix`, up to the first entry that could not be read,
/// and the error of that entry.
pub fn names_with_suffix(entries: Vec<Result<Entry, IoError>>, suffix: &str) -> (r: (
    Vec<String>,
    Option<IoError>,
))
    ensures
        texts(r.0@) == with_suffix(readable(entries@), suffix@),
        r.1 == first_error(entries@),
{
    let mut out: Vec<String> = Vec::new();
    let mut i: usize = 0;
    let ghost keep = |name: Seq<char>| suffix@.is_suffix_of(name);
    assert(entries@.skip(0) =~= entries@);
    assert(texts(out@) =~= Seq::empty());
    assert(texts(out@) + with_suffix(readable(entries@.skip(0)), suffix@) =~= with_suffix(
        readable(entries@),
        suffix@,
    ));
    while i < entries.len()
        invariant
            i <= entries@.len(),
            keep == (|name: Seq<char>| suffix@.is_suffix_of(name)),
            texts(out@) + with_suffix(readable(entries@.skip(i as int)), suffix@) == with_suffix(
                readable(entries@),
                suffix@,
            ),
            first_error(entries@.skip(i as int)) == first_error(entries@),
        decreases entries@.len() - i,
    {
        let ghost before = texts(out@);
        let ghost rest = entries@.skip(i as int);
        proof {
            assert(rest.skip(1) =~= entries@.skip(i + 1));
            assert(rest[0] == entries@[i as int]);
        }
        match &entries[i] {
            Ok(e) => {
                proof {
                    lemma_filter_first(e.name@, readable(rest.skip(1)), keep);
                }
                if ends_with(e.name.as_str(), suffix) {
                    out.push(e.name.clone());
                    assert(texts(out@) =~= before.push(e.name@));
                }
                proof {
                    assert(texts(out@) + with_suffix(readable(rest.skip(1)), suffix@) =~= before
                        + with_suffix(readable(rest), suffix@));
                }
            },
            Err(e) => {
                proof {
                    assert(with_suffix(readable(rest), suffix@) =~= Seq::empty()) by {
                        reveal(Seq::filter);
                    }
                    assert(texts(out@) + with_suffix(readable(rest), suffix@) =~= texts(out@));
                }
                return (out, Some(*e));
            },
        }
        i = i + 1;
    }
    proof {
        assert(with_suffix(readable(entries@.skip(i as int)), suffix@) =~= Seq::empty()) by {
            reveal(Seq::filter);
        }
        assert(texts(out@) + Seq::<Seq<char>>::empty() =~= texts(out@));
    }
    (out, None)
}

/// Filtering goes element by element.
pub proof fn lemma_filter_first<T>(first: T, rest: Seq<T>, keep: spec_fn(T) -> bool)
    ensures
        (seq![first] + rest).filter(keep) == (if keep(first) {
            seq![first] + rest.filter(keep)
        } else {
            rest.filter(keep)
        }),
    decreases rest.len(),
{
    reveal(Seq::filter);
    let all = seq![first] + rest;
    if rest.len() == 0 {
        assert(all.drop_last() =~= Seq::empty());
        assert(all.drop_last().filter(keep) =~= Seq::empty());
        assert(rest.filter(keep) =~= Seq::empty());
        assert(all.filter(keep) =~= (if keep(first) { seq![first] } else { Seq::empty() }));
        assert(seq![first] + rest.filter(keep) =~= seq![first]);
    } else {
        assert(all.drop_last() =~= seq![first] + rest.drop_last());
        lemma_filter_first(first, rest.drop_last(), keep);
        assert(all.filter(keep) =~= (if keep(first) {
            seq![first] + rest.filter(keep)
        } else {
            rest.filter(keep)
        }));
    }
}

impl CasStore {
    /// Begins to apply one journal of a bucket.
    pub fn apply_journal(&self, journal_name: &str) -> (r: (Option<Applying>, Plan))
        ensures
            goes_on(r.0, seq![journal_name@], 0),
            r.1@ == next_journal(seq![journal_name@], 0),
    {
        let mut names: Vec<String> = Vec::new();
        names.push(owned(journal_name));
        assert(texts(names@) =~= seq![journal_name@]);
        let mut plan = Plan::new();
        let state = next_apply(&mut plan, names, 0);
        assert(plan@ =~= next_journal(seq![journal_name@], 0));
        (state, plan)
    }

    /// Begins to remove the staged manifests of a bucket.
    pub fn cleanup_arriving(&self) -> (r: (Sweeping, Plan))
        ensures
            !r.0.journals,
            r.1@ == seq![
                StepView::Ask { question: QuestionView::List { at: Place::Arriving } },
            ],
    {
        let mut plan = Plan::new();
        plan.ask(Question::List { at: Place::Arriving });
        assert(plan@ =~= seq![
            StepView::Ask { question: QuestionView::List { at: Place::Arriving } },
        ]);
        (Sweeping { journals: false }, plan)
    }

    /// Begins the sweep of a bucket: staged manifests are removed, then the journals are applied.
    /// Uploads in progress are kept.
    pub fn recover_bucket(&self) -> (r: (Sweeping, Plan))
        ensures
            r.0.journals,
            r.1@ == seq![
                StepView::Ask { question: QuestionView::List { at: Place::Arriving } },
            ],
    {
        let mut plan = Plan::new();
        plan.ask(Question::List { at: Place::Arriving });
        assert(plan@ =~= seq![
            StepView::Ask { question: QuestionView::List { at: Place::Arriving } },
        ]);
        (Sweeping { journals: true }, plan)
    }
}

/// What follows the removal of the staged manifests.
pub open spec fn sweep_rest(journals: bool) -> StepView {
    if journals {
        StepView::Ask { question: QuestionView::List { at: Place::Deleted } }
    } else {
        StepView::Finish { outcome: OutcomeView::Nothing }
    }
}

/// The staged manifests among the entries are removed; the directories of uploads are not.
pub open spec fn sweep_steps(entries: Seq<Result<Entry, IoError>>, journals: bool) -> Seq<
    StepView,
> {
    unstage_steps(with_suffix(readable(entries), ".manifest"@)).push(
        match first_error(entries) {
            Some(e) => StepView::Fail { error: StorageError::Io(e) },
            None => sweep_rest(journals),
        },
    )
}

impl Sweeping {
    /// Goes on once the upload area was listed.
    pub fn arriving(
        self,
        listing: Result<Vec<Result<Entry, IoError>>, IoError>,
    ) -> (r: Result<Plan, StorageError>)
        ensures
            match listing {
                Ok(entries) => r matches Ok(plan) && plan@ == sweep_steps(
                    entries@,
                    self.journals,
                ),
                Err(e) => if e.kind == IoErrorKind::NotFound {
                    r matches Ok(plan) && plan@ == seq![sweep_rest(self.journals)]
                } else {
                    r == Err::<Plan, StorageError>(StorageError::Io(e))
                },
            },
    {
        let mut plan = Plan::new();
        let mut failure: Option<IoError> = None;
        match listing {
            Ok(entries) => {
                let (names, error) = names_with_suffix(entries, ".manifest");
                failure = error;
                let ghost want = unstage_steps(texts(names@));
                let mut i: usize = 0;
                while i < names.len()
                    invariant
                        i <= names@.len(),
                        want == unstage_steps(texts(names@)),
                        plan@ == want.take(i as int),
                    decreases names@.len() - i,
                {
                    plan.push(
                        Step::Do {
                            call: Call::RemoveFile { at: Place::Staged { name: names[i].clone() } },
                            rule: Rule {
                                count: Some(Counter::Staged),
                                missing_ok: false,
                                on_error: OnError::Ignore,
                                if_clean: false,
                            },
                        },
                    );
                    assert(plan@ =~= want.take(i + 1));
                    i = i + 1;
                }
                assert(want.take(i as int) =~= want);
            },
            Err(e) => {
                if e.kind != IoErrorKind::NotFound {
                    return Err(StorageError::Io(e));
                }
            },
        }
        match failure {
            Some(e) => {
                plan.push(Step::Fail { error: StorageError::Io(e) });
            },
            None => {
                if self.journals {
                    plan.ask(Question::List { at: Place::Deleted });
                } else {
                    plan.finish(Outcome::Nothing);
                }
            },
        }
        proof {
            if listing is Err {
                assert(plan@ =~= seq![sweep_rest(self.journals)]);
            }
        }
        Ok(plan)
    }

    /// Goes on once the journals were listed: they are applied one after the other.
    pub fn deleted(
        self,
        listing: Result<Vec<Result<Entry, IoError>>, IoError>,
    ) -> (r: Result<(Option<Applying>, Plan), StorageError>)
        ensures
            match listing {
                Ok(entries) => match first_error(entries@) {
                    Some(e) => r == Err::<(Option<Applying>, Plan), StorageError>(
                        StorageError::Io(e),
                    ),
                    None => {
                        &&& r matches Ok(p)
                        &&& goes_on(p.0, with_suffix(readable(entries@), ".journal"@), 0)
                        &&& p.1@ == next_journal(
                            with_suffix(readable(entries@), ".journal"@),
                            0,
                        )
                    },
                },
                Err(e) => if e.kind == IoErrorKind::NotFound {
                    r matches Ok(p) && p.0 is None && p.1@ == next_journal(Seq::empty(), 0)
                } else {
                    r == Err::<(Option<Applying>, Plan), StorageError>(StorageError::Io(e))
                },
            },
    {
        let mut plan = Plan::new();
        let names: Vec<String> = match listing {
            Ok(entries) => {
                let (names, error) = names_with_suffix(entries, ".journal");
                if let Some(e) = error {
                    return Err(StorageError::Io(e));
                }
                names
            },
            Err(e) => {
                if e.kind != IoErrorKind::NotFound {
                    return Err(StorageError::Io(e));
                }
                Vec::new()
            },
        };
        proof {
            if listing is Err {
                assert(texts(names@) =~= Seq::empty());
            }
        }
        let state = next_apply(&mut plan, names, 0);
        assert(plan@ =~= next_journal(texts(names@), 0));
        Ok((state, plan))
    }
}

/// An entry of the data root is a bucket: a real directory whose name does not begin with a dot.
pub open spec fn is_bucket_entry(entry: Entry) -> bool {
    entry.kind == Some(EntryKind::Directory) && !"."@.is_prefix_of(entry.name@)
}

/// Whether an entry of the data root is a bucket.
pub fn bucket_entry(entry: &Entry) -> (r: bool)
    ensures
        r == is_bucket_entry(*entry),
{
    let directory = match entry.kind {
        Some(EntryKind::Directory) => true,
        _ => false,
    };
    directory && !starts_with(entry.name.as_str(), ".")
}

/// The buckets in a listing of the data root, up to the first entry that could not be read.
pub open spec fn bucket_names(entries: Seq<Result<Entry, IoError>>) -> Seq<Seq<char>>
    decreases entries.len(),
{
    if entries.len() == 0 {
        Seq::empty()
    } else {
        match entries[0] {
            Ok(e) => (if is_bucket_entry(e) {
                seq![e.name@]
            } else {
                Seq::empty()
            }) + bucket_names(entries.skip(1)),
            Err(_) => Seq::empty(),
        }
    }
}

/// The error that ends a sweep of the data root after the buckets that could be listed.
pub open spec fn root_failure(listing: Result<Vec<Result<Entry, IoError>>, IoError>) -> Option<
    StorageError,
> {
    match listing {
        Ok(entries) => match first_error(entries@) {
            Some(e) => Some(StorageError::Io(e)),
            None => None,
        },
        Err(e) => if e.kind == IoErrorKind::NotFound {
            None
        } else {
            Some(StorageError::Io(e))
        },
    }
}

/// The buckets that a sweep visits, and the error that ends it.
fn swept_buckets(listing: Result<Vec<Result<Entry, IoError>>, IoError>) -> (r: (
    Vec<String>,
    Option<StorageError>,
))
    ensures
        match listing {
            Ok(entries) => texts(r.0@) == bucket_names(entries@),
            Err(_) => r.0@.len() == 0,
        },
        r.1 == root_failure(listing),
{
    let mut out: Vec<String> = Vec::new();
    let entries = match listing {
        Ok(entries) => entries,
        Err(e) => {
            if e.kind == IoErrorKind::NotFound {
                return (out, None);
            }
            return (out, Some(StorageError::Io(e)));
        },
    };
    let mut i: usize = 0;
    assert(entries@.skip(0) =~= entries@);
    assert(texts(out@) + bucket_names(entries@) =~= bucket_names(entries@));
    while i < entries.len()
        invariant
            i <= entries@.len(),
            listing matches Ok(given) && given == entries,
            texts(out@) + bucket_names(entries@.skip(i as int)) == bucket_names(entries@),
            first_error(entries@.skip(i as int)) == first_error(entries@),
        decreases entries@.len() - i,
    {
        let ghost before = texts(out@);
        let ghost rest = entries@.skip(i as int);
        proof {
            assert(rest.skip(1) =~= entries@.skip(i + 1));
            assert(rest[0] == entries@[i as int]);
        }
        match &entries[i] {
            Ok(e) => {
                if bucket_entry(e) {
                    out.push(e.name.clone());
                    assert(texts(out@) =~= before.push(e.name@));
                }
                assert(texts(out@) + bucket_names(rest.skip(1)) =~= before + bucket_names(rest));
            },
            Err(e) => {
                assert(texts(out@) + bucket_names(rest) =~= texts(out@));
                return (out, Some(StorageError::Io(*e)));
            },
        }
        i = i + 1;
    }
    assert(texts(out@) + bucket_names(entries@.skip(i as int)) =~= texts(out@));
    (out, None)
}

/// The sum, as far as it can be counted.
pub open spec fn total_of(a: usize, b: usize) -> usize {
    if a + b <= usize::MAX {
        (a + b) as usize
    } else {
        usize::MAX
    }
}

/// What a sweep of all buckets needs next.
#[derive(Debug)]
pub enum SweepStep {
    /// The bucket of this name is to be swept.
    Bucket { name: String },
    Done,
    Failed { error: StorageError },
}

#[verifier::ext_equal]
pub enum SweepStepView {
    Bucket { name: Seq<char> },
    Done,
    Failed { error: StorageError },
}

impl View for SweepStep {
    type V = SweepStepView;

    open spec fn view(&self) -> SweepStepView {
        match self {
            SweepStep::Bucket { name } => SweepStepView::Bucket { name: name@ },
            SweepStep::Done => SweepStepView::Done,
            SweepStep::Failed { error } => SweepStepView::Failed { error: *error },
        }
    }
}

/// A sweep of all buckets, one after the other. The first bucket that fails ends it.
#[derive(Debug)]
pub struct BucketSweep {
    pub buckets: Vec<String>,
    /// How many of them were swept.
    pub next: usize,
    /// The error that ends the sweep.
    pub failure: Option<StorageError>,
    /// What was removed in all of them.
    pub totals: Tallies,
}

impl BucketSweep {
    /// No bucket was swept yet.
    pub open spec fn begins(&self) -> bool {
        self.next == 0 && self.totals == no_tallies()
    }

    /// Whether this becomes `next` once a bucket was swept, or could not be.
    pub open spec fn grows_to(
        &self,
        result: Result<Tallies, StorageError>,
        next: BucketSweep,
    ) -> bool {
        &&& next.buckets == self.buckets
        &&& match result {
            Ok(t) => {
                &&& next.next == self.next + 1
                &&& next.failure == self.failure
                &&& next.totals == (Tallies {
                    staged: total_of(self.totals.staged, t.staged),
                    journals: total_of(self.totals.journals, t.journals),
                    blobs: total_of(self.totals.blobs, t.blobs),
                    uploads: total_of(self.totals.uploads, t.uploads),
                })
            },
            Err(e) => {
                &&& next.next == self.buckets@.len()
                &&& next.failure == Some(e)
                &&& next.totals == self.totals
            },
        }
    }

    /// The bucket that comes next, or how the sweep ended.
    pub open spec fn step(&self) -> SweepStepView {
        if self.next < self.buckets@.len() {
            SweepStepView::Bucket { name: self.buckets@[self.next as int]@ }
        } else {
            match self.failure {
                Some(error) => SweepStepView::Failed { error },
                None => SweepStepView::Done,
            }
        }
    }

    /// Begins a sweep of the buckets in the data root.
    pub fn new(listing: Result<Vec<Result<Entry, IoError>>, IoError>) -> (r: BucketSweep)
        ensures
            texts(r.buckets@) == (match listing {
                Ok(entries) => bucket_names(entries@),
                Err(_) => Seq::empty(),
            }),
            r.failure == root_failure(listing),
            r.begins(),
    {
        let (buckets, failure) = swept_buckets(listing);
        proof {
            if listing is Err {
                assert(texts(buckets@) =~= Seq::empty());
            }
        }
        BucketSweep {
            buckets,
            next: 0,
            failure,
            totals: Tallies { staged: 0, journals: 0, blobs: 0, uploads: 0 },
        }
    }

    /// The bucket that comes next, or how the sweep ended.
    pub fn next_step(&self) -> (r: SweepStep)
        ensures
            r@ == self.step(),
    {
        if self.next < self.buckets.len() {
            SweepStep::Bucket { name: self.buckets[self.next].clone() }
        } else {
            match self.failure {
                Some(error) => SweepStep::Failed { error },
                None => SweepStep::Done,
            }
        }
    }

    /// Goes on once a bucket was swept, or could not be.
    pub fn swept(self, result: Result<Tallies, StorageError>) -> (r: BucketSweep)
        requires
            self.next < self.buckets@.len(),
        ensures
            self.grows_to(result, r),
    {
        let end: usize = self.buckets.len();
        match result {
            Ok(t) => BucketSweep {
                buckets: self.buckets,
                next: self.next + 1,
                failure: self.failure,
                totals: Tallies {
                    staged: self.totals.staged.saturating_add(t.staged),
                    journals: self.totals.journals.saturating_add(t.journals),
                    blobs: self.totals.blobs.saturating_add(t.blobs),
                    uploads: self.totals.uploads.saturating_add(t.uploads),
                },
            },
            Err(e) => BucketSweep {
                buckets: self.buckets,
                next: end,
                failure: Some(e),
                totals: self.totals,
            },
        }
    }
}

impl CasStore {
    /// Begins the sweep that a restart begins with, over all buckets of the data root. Each of
    /// them is swept by `recover_bucket`.
    pub fn recover(&self, listing: Result<Vec<Result<Entry, IoError>>, IoError>) -> (r: BucketSweep)
        ensures
            texts(r.buckets@) == (match listing {
                Ok(entries) => bucket_names(entries@),
                Err(_) => Seq::empty(),
            }),
            r.failure == root_failure(listing),
            r.begins(),
    {
        BucketSweep::new(listing)
    }
}

impl RecoveryStats {
    /// What a recovery sweep did so far.
    pub fn of(sweep: &BucketSweep) -> (r: RecoveryStats)
        ensures
            r == (RecoveryStats {
                buckets: sweep.next,
                arriving_manifests_removed: sweep.totals.staged,
                journals_processed: sweep.totals.journals,
                journal_blobs_reclaimed: sweep.totals.blobs,
            }),
    {
        RecoveryStats {
            buckets: sweep.next,
            arriving_manifests_removed: sweep.totals.staged,
            journals_processed: sweep.totals.journals,
            journal_blobs_reclaimed: sweep.totals.blobs,
        }
    }
}

impl ReclaimStats {
    /// What applying a journal did.
    pub fn from_tallies(t: Tallies) -> (r: ReclaimStats)
        ensures
            r == (ReclaimStats { blobs_deleted: t.blobs, journals_removed: t.journals }),
    {
        ReclaimStats { blobs_deleted: t.blobs, journals_removed: t.journals }
    }
}

} // verus!
