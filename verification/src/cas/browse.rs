//! Listing the objects of a bucket.

use vstd::prelude::*;
use crate::cas::store::{
    head_bucket_step, push_head_bucket, refusal, refuse, validate_bucket_component, CasStore,
};
use crate::listing::{
    all_lines, apart, every_key_is_listed_once, first_lines, group_keys, groups_are_no_keys,
    groups_of, item_text, key_groups, last_text, objects_of, paginate, pages_join_up, plain_keys,
    Item,
};
use crate::manifest::{decode_relpath_to_key, decoded_key, Manifest, ManifestView};
use crate::path::{path_join, path_join_all};
use crate::plan::call::{Outcome, OutcomeView, Question, QuestionView};
use crate::plan::place::{current_root, first_of, place_path, Place, PlaceView};
use crate::plan::runner::{Plan, StepView};
use crate::sorting::{
    in_text_order, lemma_in_text_order, lemma_text_set, names, sort_by_name, sort_text_set,
    strictly_ascend, text_set,
};
use crate::text::{lemma_text_order, owned, pieces, same, split, text_before, texts};
use crate::types::{
    is_bucket_name, IoError, ListObjectsInput, ListObjectsOutput, ListObjectsView, ObjectInfo,
    ObjectInfoView, StorageError,
};

verus! {

/// How many lines a page has where no limit was asked for.
pub const DEFAULT_MAX_KEYS: usize = 1000;

/// A segment of a prefix that names one directory.
pub open spec fn is_plain_segment(s: Seq<char>) -> bool {
    s.len() > 0 && s != seq!['.'] && s != seq!['.', '.']
}

/// How many leading segments of a prefix name directories that the listing can be narrowed to: all
/// but the last, if each of them is a plain one.
pub open spec fn walk_depth(prefix: Seq<char>) -> int {
    let segs = split(prefix, '/');
    if forall|i: int| 0 <= i < segs.len() - 1 ==> is_plain_segment(#[trigger] segs[i]) {
        segs.len() - 1
    } else {
        0
    }
}

/// Where the walk for a prefix begins. A prefix is a filter and never a path: one that could lead
/// out of the tree narrows nothing.
pub open spec fn walk_place(prefix: Seq<char>) -> PlaceView {
    if walk_depth(prefix) > 0 {
        Place::KeyDir { key: prefix, depth: walk_depth(prefix) as usize }
    } else {
        Place::Current
    }
}

/// Where the walk for a prefix begins.
pub fn prefix_walk_root(prefix: &str) -> (r: Place<String>)
    ensures
        r@ == walk_place(prefix@),
{
    let segs = pieces(prefix, '/');
    let ghost views = split(prefix@, '/');
    proof {
        crate::text::lemma_split_pieces(prefix@, '/');
        reveal_strlit(".");
        reveal_strlit("..");
        assert("."@ =~= seq!['.']);
        assert(".."@ =~= seq!['.', '.']);
    }
    assert(texts(segs@).len() == segs.len());
    let depth: usize = segs.len() - 1;
    let mut i: usize = 0;
    while i < depth
        invariant
            i <= depth,
            depth + 1 == segs@.len(),
            views == split(prefix@, '/'),
            texts(segs@) == views,
            "."@ == seq!['.'],
            ".."@ == seq!['.', '.'],
            forall|j: int| 0 <= j < i ==> is_plain_segment(#[trigger] views[j]),
        decreases depth - i,
    {
        assert(views[i as int] == segs@[i as int]@);
        let seg = segs[i].as_str();
        if seg.is_empty() || same(seg, ".") || same(seg, "..") {
            assert(!is_plain_segment(views[i as int]));
            return Place::Current;
        }
        i = i + 1;
    }
    if depth > 0 {
        Place::KeyDir { key: owned(prefix), depth }
    } else {
        Place::Current
    }
}

/// The keys of the manifests among the files; other files are passed over.
pub open spec fn manifest_keys(rels: Seq<Seq<char>>) -> Seq<Seq<char>>
    decreases rels.len(),
{
    if rels.len() == 0 {
        Seq::empty()
    } else {
        let front = manifest_keys(rels.drop_last());
        match decoded_key(rels.last()) {
            Some(key) => front.push(key),
            None => front,
        }
    }
}

/// The keys of the manifests among the files.
pub fn keys_of_files(rels: &Vec<String>) -> (r: Vec<String>)
    ensures
        texts(r@) == manifest_keys(texts(rels@)),
{
    let ghost all = texts(rels@);
    let mut out: Vec<String> = Vec::new();
    let mut i: usize = 0;
    assert(all.take(0) =~= Seq::empty());
    assert(texts(out@) =~= Seq::empty());
    while i < rels.len()
        invariant
            i <= rels@.len(),
            all == texts(rels@),
            texts(out@) == manifest_keys(all.take(i as int)),
        decreases rels@.len() - i,
    {
        proof {
            let t = all.take(i + 1);
            assert(t.drop_last() =~= all.take(i as int));
            assert(t.last() == rels@[i as int]@);
        }
        if let Some(key) = decode_relpath_to_key(rels[i].as_str()) {
            let ghost found = texts(out@);
            out.push(key);
            assert(texts(out@) =~= found.push(key@));
        }
        i = i + 1;
    }
    assert(all.take(i as int) =~= all);
    out
}

/// A listing while the tree of manifests is walked.
#[derive(Debug)]
pub struct Browsing {
    pub prefix: String,
    pub delimiter: String,
    /// The listing begins behind this text; empty means at the front.
    pub start: String,
    pub max: usize,
}

/// A page whose manifests are read one after the other, for the size, the tag and the time of each
/// object.
#[derive(Debug)]
pub struct Filling {
    pub keys: Vec<String>,
    /// How many of them were read.
    pub next: usize,
    pub objects: Vec<ObjectInfo>,
    pub groups: Vec<String>,
    pub truncated: bool,
    pub token: String,
}

/// The limit of a page.
pub open spec fn page_limit(max_keys: Option<i32>) -> int {
    match max_keys {
        None => DEFAULT_MAX_KEYS as int,
        Some(n) => if n > 0 {
            n as int
        } else {
            0
        },
    }
}

/// Where a listing begins: a continuation token counts before a start.
pub open spec fn listing_start(token: Seq<char>, start_after: Seq<char>) -> Seq<char> {
    if token.len() > 0 {
        token
    } else {
        start_after
    }
}

/// The objects of a listing, in order.
pub open spec fn listed_objects(
    rels: Seq<Seq<char>>,
    prefix: Seq<char>,
    delimiter: Seq<char>,
) -> Seq<Seq<char>> {
    in_text_order(plain_keys(manifest_keys(rels), prefix, delimiter))
}

/// The groups of a listing, in order.
pub open spec fn listed_groups(
    rels: Seq<Seq<char>>,
    prefix: Seq<char>,
    delimiter: Seq<char>,
) -> Seq<Seq<char>> {
    text_set(key_groups(manifest_keys(rels), prefix, delimiter))
}

/// What is listed of an object.
pub open spec fn object_line(key: Seq<char>, m: ManifestView) -> ObjectInfoView {
    ObjectInfoView {
        key,
        size: m.content_length as i64,
        etag: m.etag,
        last_modified_unix: m.last_modified,
    }
}

impl Filling {
    /// The page as far as it is filled.
    pub open spec fn page(&self) -> ListObjectsView {
        ListObjectsView {
            objects: Seq::new(self.objects@.len(), |i: int| self.objects@[i]@),
            common_prefixes: texts(self.groups@),
            is_truncated: self.truncated,
            next_continuation_token: self.token@,
        }
    }

    /// The next manifest is read, or the page is complete.
    pub open spec fn next_steps(&self) -> Seq<StepView> {
        if self.next < self.keys@.len() {
            seq![
                StepView::Ask {
                    question: QuestionView::ReadManifest {
                        at: Place::Manifest { key: self.keys@[self.next as int]@ },
                    },
                },
            ]
        } else {
            seq![StepView::Finish { outcome: OutcomeView::Listing { page: self.page() } }]
        }
    }

    fn go_on(self) -> (r: (Option<Filling>, Plan))
        ensures
            r.1@ == self.next_steps(),
            r.0 == (if self.next < self.keys@.len() {
                Some(self)
            } else {
                None
            }),
    {
        let mut plan = Plan::new();
        if self.next < self.keys.len() {
            plan.ask(
                Question::ReadManifest {
                    at: Place::Manifest { key: self.keys[self.next].clone() },
                },
            );
            assert(plan@ =~= self.next_steps());
            (Some(self), plan)
        } else {
            let page = ListObjectsOutput {
                objects: self.objects,
                common_prefixes: self.groups,
                is_truncated: self.truncated,
                next_continuation_token: self.token,
            };
            assert(page@ =~= self.page());
            plan.finish(Outcome::Listing { page });
            assert(plan@ =~= self.next_steps());
            (None, plan)
        }
    }

    /// Goes on once a manifest was read. An object whose manifest cannot be read is left out.
    pub fn read(self, live: Result<Manifest, IoError>) -> (r: (Option<Filling>, Plan))
        ensures
            ({
                let done = self.after(live);
                &&& r.1@ == done.1
                &&& r.0 matches Some(f) ==> self.grows_to(live, f)
                &&& r.0 is Some <==> self.next + 1 < self.keys@.len()
            }),
    {
        let ghost done = self.after(live);
        let mut f = self;
        if f.next < f.keys.len() {
            let key = f.keys[f.next].clone();
            f.next = f.next + 1;
            if let Ok(m) = live {
                f.objects.push(
                    ObjectInfo {
                        key,
                        size: m.content_length as i64,
                        etag: m.etag,
                        last_modified_unix: m.last_modified,
                    },
                );
            }
        }
        assert(f.page() =~= done.0);
        f.go_on()
    }

    /// Whether this becomes `next` once the manifest of its next key was read.
    pub open spec fn grows_to(&self, live: Result<Manifest, IoError>, next: Filling) -> bool {
        &&& next.keys == self.keys
        &&& next.next == self.next + 1
        &&& next.groups == self.groups
        &&& next.truncated == self.truncated
        &&& next.token == self.token
        &&& next.page() == self.after(live).0
    }

    /// The page after a manifest was read, and the steps that follow.
    pub open spec fn after(&self, live: Result<Manifest, IoError>) -> (
        ListObjectsView,
        Seq<StepView>,
    ) {
        let page = if self.next < self.keys@.len() && live is Ok {
            ListObjectsView {
                objects: self.page().objects.push(
                    object_line(self.keys@[self.next as int]@, live->Ok_0@),
                ),
                ..self.page()
            }
        } else {
            self.page()
        };
        let at = if self.next < self.keys@.len() {
            self.next + 1
        } else {
            self.next as int
        };
        (
            page,
            if at < self.keys@.len() {
                seq![
                    StepView::Ask {
                        question: QuestionView::ReadManifest {
                            at: Place::Manifest { key: self.keys@[at]@ },
                        },
                    },
                ]
            } else {
                seq![StepView::Finish { outcome: OutcomeView::Listing { page } }]
            },
        )
    }
}

/// How a listing begins: the tree of manifests is walked as far as the prefix needs it.
pub open spec fn list_opening(prefix: Seq<char>) -> Seq<StepView> {
    seq![
        head_bucket_step(),
        StepView::Ask {
            question: QuestionView::Walk { at: walk_place(prefix), instead: Place::Current },
        },
    ]
}

impl CasStore {
    /// Begins to list the objects of a bucket.
    pub fn list_objects(&self, input: &ListObjectsInput) -> (r: (Browsing, Plan))
        ensures
            r.0.prefix@ == input.prefix@,
            r.0.delimiter@ == input.delimiter@,
            r.0.start@ == listing_start(input.continuation_token@, input.start_after@),
            r.0.max == page_limit(input.max_keys),
            r.1@ == (if is_bucket_name(input.bucket@) {
                list_opening(input.prefix@)
            } else {
                refusal(StorageError::PathTraversal)
            }),
    {
        let max: usize = match input.max_keys {
            None => DEFAULT_MAX_KEYS,
            Some(n) => if n > 0 {
                n as usize
            } else {
                0
            },
        };
        let start = if !input.continuation_token.as_str().is_empty() {
            input.continuation_token.clone()
        } else {
            input.start_after.clone()
        };
        let browsing = Browsing {
            prefix: input.prefix.clone(),
            delimiter: input.delimiter.clone(),
            start,
            max,
        };
        let plan = match validate_bucket_component(input.bucket.as_str()) {
            Ok(_) => {
                let mut plan = Plan::new();
                push_head_bucket(&mut plan);
                plan.ask(
                    Question::Walk {
                        at: prefix_walk_root(input.prefix.as_str()),
                        instead: Place::Current,
                    },
                );
                assert(plan@ =~= list_opening(input.prefix@));
                plan
            },
            Err(e) => refuse(e),
        };
        (browsing, plan)
    }
}

impl Browsing {
    /// The lines of the listing behind its start, where these are the files of the tree.
    pub open spec fn lines(&self, rels: Seq<Seq<char>>) -> Seq<Item> {
        all_lines(
            listed_objects(rels, self.prefix@, self.delimiter@),
            listed_groups(rels, self.prefix@, self.delimiter@),
            self.start@,
        )
    }

    /// The keys of the objects on the page.
    pub open spec fn page_keys(&self, rels: Seq<Seq<char>>) -> Seq<Seq<char>> {
        objects_of(first_lines(self.lines(rels), self.max as int))
    }

    /// The page before the first manifest was read.
    pub open spec fn empty_page(&self, rels: Seq<Seq<char>>) -> ListObjectsView {
        let lines = self.lines(rels);
        let page = first_lines(lines, self.max as int);
        ListObjectsView {
            objects: Seq::empty(),
            common_prefixes: groups_of(page),
            is_truncated: lines.len() > self.max,
            next_continuation_token: if lines.len() > self.max {
                last_text(page)
            } else {
                Seq::empty()
            },
        }
    }

    /// Whether the page begins to be filled so.
    pub open spec fn begins(&self, rels: Seq<Seq<char>>, first: Filling) -> bool {
        &&& first.next == 0
        &&& texts(first.keys@) == self.page_keys(rels)
        &&& first.page() == self.empty_page(rels)
    }

    /// Goes on once the tree was walked: the page is cut, and its manifests are read.
    pub fn walked(self, files: Result<Vec<String>, IoError>) -> (r: Result<
        (Option<Filling>, Plan),
        StorageError,
    >)
        ensures
            match files {
                Err(e) => r == Err::<(Option<Filling>, Plan), StorageError>(StorageError::Io(e)),
                Ok(rels) => {
                    let keys = self.page_keys(texts(rels@));
                    &&& r matches Ok(p)
                    &&& p.0 is Some <==> keys.len() > 0
                    &&& p.0 matches Some(f) ==> self.begins(texts(rels@), f)
                    &&& p.1@ == (if keys.len() > 0 {
                        seq![
                            StepView::Ask {
                                question: QuestionView::ReadManifest {
                                    at: Place::Manifest { key: keys[0] },
                                },
                            },
                        ]
                    } else {
                        seq![
                            StepView::Finish {
                                outcome: OutcomeView::Listing {
                                    page: self.empty_page(texts(rels@)),
                                },
                            },
                        ]
                    })
                },
            },
    {
        let rels = match files {
            Ok(rels) => rels,
            Err(e) => return Err(StorageError::Io(e)),
        };
        let keys = keys_of_files(&rels);
        let (plain, groups) = group_keys(keys, self.prefix.as_str(), self.delimiter.as_str());
        assert(names(plain@) =~= texts(plain@));
        let sorted = sort_by_name(plain);
        assert(names(sorted@) =~= texts(sorted@));
        let page = paginate(sorted, sort_text_set(groups), self.start.as_str(), self.max);
        let filling = Filling {
            keys: page.objects,
            next: 0,
            objects: Vec::new(),
            groups: page.groups,
            truncated: page.truncated,
            token: if page.truncated {
                page.last
            } else {
                String::new()
            },
        };
        proof {
            assert(filling.page().objects =~= Seq::empty());
            assert(texts(filling.keys@).len() == filling.keys@.len());
            if filling.keys@.len() > 0 {
                assert(texts(filling.keys@)[0] == filling.keys@[0]@);
            }
        }
        Ok(filling.go_on())
    }
}

/// The walk for a prefix stays in the tree of manifests.
pub proof fn walk_stays_in_the_tree(root: Seq<char>, bucket: Seq<char>, prefix: Seq<char>)
    requires
        current_root(root, bucket).len() > 0,
        current_root(root, bucket).last() != '/',
        prefix.len() < usize::MAX,
    ensures
        walk_place(prefix) is Current || (current_root(root, bucket) + seq!['/']).is_prefix_of(
            place_path(root, bucket, walk_place(prefix)),
        ),
{
    let segs = split(prefix, '/');
    crate::text::lemma_split_pieces(prefix, '/');
    lemma_piece_count(prefix);
    if walk_depth(prefix) > 0 {
        let dirs = segs.take(walk_depth(prefix));
        assert(dirs == first_of(segs, walk_depth(prefix) as usize as int));
        lemma_below(current_root(root, bucket), dirs);
    }
}

/// A text has at most one piece more than characters.
proof fn lemma_piece_count(s: Seq<char>)
    ensures
        1 <= split(s, '/').len() <= s.len() + 1,
    decreases s.len(),
{
    if s.len() > 0 {
        lemma_piece_count(s.drop_last());
    }
}

/// Plain segments lead below the place where they begin.
proof fn lemma_below(base: Seq<char>, dirs: Seq<Seq<char>>)
    requires
        base.len() > 0,
        base.last() != '/',
        dirs.len() > 0,
        forall|i: int|
            0 <= i < dirs.len() ==> is_plain_segment(#[trigger] dirs[i]) && !dirs[i].contains('/'),
    ensures
        (base + seq!['/']).is_prefix_of(path_join_all(base, dirs)),
        path_join_all(base, dirs).last() != '/',
    decreases dirs.len(),
{
    let front = dirs.drop_last();
    let last = dirs.last();
    assert(is_plain_segment(dirs[dirs.len() - 1]) && !dirs[dirs.len() - 1].contains('/'));
    assert(last[0] != '/') by {
        if last[0] == '/' {
            assert(last.contains('/'));
        }
    }
    assert(last.last() != '/') by {
        if last.last() == '/' {
            assert(last.contains('/'));
        }
    }
    if front.len() == 0 {
        assert(front =~= Seq::empty());
        assert(path_join_all(base, front) == base);
        assert(path_join_all(base, dirs) == path_join(base, last));
    } else {
        assert forall|i: int| 0 <= i < front.len() implies is_plain_segment(#[trigger] front[i])
            && !front[i].contains('/') by {
            assert(front[i] == dirs[i]);
        }
        lemma_below(base, front);
    }
}

/// Narrowing the walk loses nothing: the manifest of every key with the prefix lies below the place
/// where the walk begins, because the key begins with the same directories.
pub proof fn walk_covers_the_prefix(prefix: Seq<char>, key: Seq<char>)
    requires
        prefix.is_prefix_of(key),
    ensures
        split(key, '/').len() > walk_depth(prefix),
        split(key, '/').take(walk_depth(prefix)) == split(prefix, '/').take(walk_depth(prefix)),
{
    crate::text::lemma_split_pieces(prefix, '/');
    lemma_prefix_pieces(prefix, key);
    let n = walk_depth(prefix);
    let a = split(key, '/');
    let b = split(prefix, '/');
    assert(a.take(n) =~= b.take(n)) by {
        assert forall|i: int| 0 <= i < n implies a[i] == b[i] by {
            assert(a.take(b.len() - 1)[i] == b.take(b.len() - 1)[i]);
        }
    }
}

/// A text that begins with another begins with its pieces, but for the last one.
proof fn lemma_prefix_pieces(prefix: Seq<char>, key: Seq<char>)
    requires
        prefix.is_prefix_of(key),
    ensures
        split(prefix, '/').len() >= 1,
        split(key, '/').len() >= split(prefix, '/').len(),
        split(key, '/').take(split(prefix, '/').len() - 1) == split(prefix, '/').take(
            split(prefix, '/').len() - 1,
        ),
    decreases key.len(),
{
    crate::text::lemma_split_pieces(prefix, '/');
    crate::text::lemma_split_pieces(key, '/');
    let a = split(key, '/');
    let b = split(prefix, '/');
    if prefix.len() == key.len() {
        assert(prefix =~= key);
    } else {
        let front = key.drop_last();
        assert(prefix.is_prefix_of(front)) by {
            assert(front.subrange(0, prefix.len() as int) =~= prefix);
        }
        lemma_prefix_pieces(prefix, front);
        let c = split(front, '/');
        let n = b.len() - 1;
        assert(a.take(n) =~= c.take(n));
    }
}

/// The pages of a listing join up: a page that begins at the continuation token of the page before
/// it has exactly the lines that were left over.
pub proof fn listing_pages_join_up(
    rels: Seq<Seq<char>>,
    prefix: Seq<char>,
    delimiter: Seq<char>,
    start: Seq<char>,
    max: int,
)
    requires
        manifest_keys(rels).no_duplicates(),
        !manifest_keys(rels).contains(Seq::<char>::empty()),
        max > 0,
        all_lines(
            listed_objects(rels, prefix, delimiter),
            listed_groups(rels, prefix, delimiter),
            start,
        ).len() > max,
    ensures
        ({
            let objects = listed_objects(rels, prefix, delimiter);
            let groups = listed_groups(rels, prefix, delimiter);
            let lines = all_lines(objects, groups, start);
            let page = first_lines(lines, max);
            &&& page.len() == max
            &&& last_text(page).len() > 0
            &&& all_lines(objects, groups, last_text(page)) == lines.skip(max)
        }),
{
    let keys = manifest_keys(rels);
    let plain = plain_keys(keys, prefix, delimiter);
    let groups0 = key_groups(keys, prefix, delimiter);
    let objects = listed_objects(rels, prefix, delimiter);
    let groups = listed_groups(rels, prefix, delimiter);
    lemma_plain_keys_distinct(keys, prefix, delimiter);
    lemma_strict(plain);
    lemma_text_set(groups0);
    lemma_in_text_order(plain);
    assert(apart(objects, groups)) by {
        assert forall|i: int, j: int| 0 <= i < objects.len() && 0 <= j < groups.len() implies
            #[trigger] objects[i] != #[trigger] groups[j] by {
            assert(objects.contains(objects[i]));
            assert(plain.contains(objects[i]));
            assert(groups.contains(groups[j]));
            assert(groups0.contains(groups[j]));
            groups_are_no_keys(keys, prefix, delimiter, groups[j]);
        }
    }
    crate::listing::lines_are_in_order(objects, groups, start);
    let lines = all_lines(objects, groups, start);
    assert forall|i: int| 0 <= i < max implies item_text(#[trigger] lines[i]).len() > 0 by {
        crate::listing::lemma_line_source(objects, groups, start, i);
        let t = item_text(lines[i]);
        if objects.contains(t) {
            assert(plain.contains(t));
            every_key_is_listed_once(keys, prefix, delimiter, t);
            if t.len() == 0 {
                assert(t =~= Seq::<char>::empty());
            }
        } else {
            assert(groups.contains(t));
            assert(groups0.contains(t));
            every_key_is_listed_once(keys, prefix, delimiter, t);
            crate::listing::lemma_group_is_not_empty(keys, prefix, delimiter, t);
        }
    }
    pages_join_up(objects, groups, start, max);
    assert(first_lines(lines, max).last() == lines[max - 1]);
}

/// What is listed of the keys whose manifests can be read.
pub open spec fn filled(
    keys: Seq<Seq<char>>,
    live: spec_fn(Seq<char>) -> Option<ManifestView>,
) -> Seq<ObjectInfoView>
    decreases keys.len(),
{
    if keys.len() == 0 {
        Seq::empty()
    } else {
        let front = filled(keys.drop_last(), live);
        match live(keys.last()) {
            Some(m) => front.push(object_line(keys.last(), m)),
            None => front,
        }
    }
}

/// The page that a listing is answered with, where these are the files of the tree and the live
/// versions of the keys.
pub open spec fn page_reply(
    rels: Seq<Seq<char>>,
    live: spec_fn(Seq<char>) -> Option<ManifestView>,
    prefix: Seq<char>,
    delimiter: Seq<char>,
    start: Seq<char>,
    max: int,
) -> ListObjectsView {
    let lines = all_lines(
        listed_objects(rels, prefix, delimiter),
        listed_groups(rels, prefix, delimiter),
        start,
    );
    let page = first_lines(lines, max);
    ListObjectsView {
        objects: filled(objects_of(page), live),
        common_prefixes: groups_of(page),
        is_truncated: lines.len() > max,
        next_continuation_token: if lines.len() > max {
            last_text(page)
        } else {
            Seq::empty()
        },
    }
}

/// What was read of a manifest, if it could be read.
pub open spec fn legible(live: Result<Manifest, IoError>) -> Option<ManifestView> {
    match live {
        Ok(m) => Some(m@),
        Err(_) => None,
    }
}

/// What a page holds while it is filled.
proof fn lemma_filling(
    browsing: Browsing,
    rels: Seq<Seq<char>>,
    live: spec_fn(Seq<char>) -> Option<ManifestView>,
    stages: Seq<Filling>,
    answers: Seq<Result<Manifest, IoError>>,
    k: int,
)
    requires
        0 <= k < stages.len(),
        stages.len() == answers.len() == browsing.page_keys(rels).len(),
        browsing.begins(rels, stages[0]),
        forall|i: int|
            0 <= i < stages.len() - 1 ==> (#[trigger] stages[i]).grows_to(
                answers[i],
                stages[i + 1],
            ),
        forall|i: int|
            0 <= i < answers.len() ==> legible(#[trigger] answers[i]) == live(
                browsing.page_keys(rels)[i],
            ),
    ensures
        stages[k].next == k,
        texts(stages[k].keys@) == browsing.page_keys(rels),
        stages[k].page() == (ListObjectsView {
            objects: filled(browsing.page_keys(rels).take(k), live),
            ..browsing.empty_page(rels)
        }),
    decreases k,
{
    let keys = browsing.page_keys(rels);
    if k == 0 {
        assert(filled(keys.take(0), live) =~= Seq::empty());
    } else {
        let i = k - 1;
        lemma_filling(browsing, rels, live, stages, answers, i);
        assert(stages[i].grows_to(answers[i], stages[i + 1]));
        lemma_filled_once(keys, live, stages[i], answers[i], i);
    }
}

/// The page after one more manifest was read.
proof fn lemma_filled_once(
    keys: Seq<Seq<char>>,
    live: spec_fn(Seq<char>) -> Option<ManifestView>,
    stage: Filling,
    answer: Result<Manifest, IoError>,
    i: int,
)
    requires
        0 <= i < keys.len(),
        stage.next == i,
        texts(stage.keys@) == keys,
        legible(answer) == live(keys[i]),
        stage.page().objects == filled(keys.take(i), live),
    ensures
        stage.after(answer).0 == (ListObjectsView {
            objects: filled(keys.take(i + 1), live),
            ..stage.page()
        }),
{
    let front = keys.take(i + 1);
    assert(front.drop_last() =~= keys.take(i));
    assert(front.last() == keys[i]);
    assert(keys.len() == stage.keys@.len());
    assert(keys[i] == stage.keys@[i]@);
}

/// A listing is answered with its page: once the tree was walked, the manifests of the keys on the
/// page are asked for one after the other, and the answer is what `page_reply` says of the files of
/// the tree and of the manifests that could be read.
pub proof fn listing_is_answered_with_its_page(
    browsing: Browsing,
    rels: Seq<Seq<char>>,
    live: spec_fn(Seq<char>) -> Option<ManifestView>,
    stages: Seq<Filling>,
    answers: Seq<Result<Manifest, IoError>>,
)
    requires
        stages.len() == answers.len() == browsing.page_keys(rels).len(),
        stages.len() > 0 ==> browsing.begins(rels, stages[0]),
        forall|i: int|
            0 <= i < stages.len() - 1 ==> (#[trigger] stages[i]).grows_to(
                answers[i],
                stages[i + 1],
            ),
        forall|i: int|
            0 <= i < answers.len() ==> legible(#[trigger] answers[i]) == live(
                browsing.page_keys(rels)[i],
            ),
    ensures
        ({
            let page = page_reply(
                rels,
                live,
                browsing.prefix@,
                browsing.delimiter@,
                browsing.start@,
                browsing.max as int,
            );
            &&& stages.len() == 0 ==> browsing.empty_page(rels) == page
            &&& forall|i: int|
                0 <= i < stages.len() ==> (#[trigger] stages[i]).next_steps() == seq![
                    StepView::Ask {
                        question: QuestionView::ReadManifest {
                            at: Place::Manifest { key: browsing.page_keys(rels)[i] },
                        },
                    },
                ]
            &&& stages.len() > 0 ==> stages.last().after(answers.last()).1 == seq![
                StepView::Finish { outcome: OutcomeView::Listing { page } },
            ]
        }),
{
    let keys = browsing.page_keys(rels);
    assert forall|i: int| 0 <= i < stages.len() implies (#[trigger] stages[i]).next_steps() == seq![
        StepView::Ask {
            question: QuestionView::ReadManifest { at: Place::Manifest { key: keys[i] } },
        },
    ] by {
        lemma_filling(browsing, rels, live, stages, answers, i);
        assert(keys[i] == stages[i].keys@[i]@);
    }
    if stages.len() > 0 {
        let i = stages.len() - 1;
        lemma_filling(browsing, rels, live, stages, answers, i);
        assert(legible(answers[i]) == live(keys[i]));
        lemma_filled_once(keys, live, stages[i], answers[i], i);
        assert(keys.take(i + 1) =~= keys);
    } else {
        assert(filled(keys, live) =~= Seq::empty());
    }
}

/// The objects of the pages, one page after the other.
pub open spec fn joined_objects(pages: Seq<ListObjectsView>) -> Seq<ObjectInfoView>
    decreases pages.len(),
{
    if pages.len() == 0 {
        Seq::empty()
    } else {
        pages[0].objects + joined_objects(pages.skip(1))
    }
}

/// The common prefixes of the pages, one page after the other.
pub open spec fn joined_prefixes(pages: Seq<ListObjectsView>) -> Seq<Seq<char>>
    decreases pages.len(),
{
    if pages.len() == 0 {
        Seq::empty()
    } else {
        pages[0].common_prefixes + joined_prefixes(pages.skip(1))
    }
}

/// The lines of two lists are those of the first and then those of the second.
pub proof fn lemma_lines_join(a: Seq<Item>, b: Seq<Item>)
    ensures
        objects_of(a + b) == objects_of(a) + objects_of(b),
        groups_of(a + b) == groups_of(a) + groups_of(b),
        objects_of(a).len() + groups_of(a).len() == a.len(),
    decreases a.len() + b.len(),
{
    if b.len() > 0 {
        lemma_lines_join(a, b.drop_last());
        assert((a + b).drop_last() =~= a + b.drop_last());
        assert(objects_of(a + b) =~= objects_of(a) + objects_of(b));
        assert(groups_of(a + b) =~= groups_of(a) + groups_of(b));
    } else {
        assert(a + b =~= a);
        assert(objects_of(a + b) =~= objects_of(a) + objects_of(b));
        assert(groups_of(a + b) =~= groups_of(a) + groups_of(b));
        if a.len() > 0 {
            lemma_lines_join(a.drop_last(), Seq::empty());
        }
    }
}

proof fn lemma_filled_joins(
    a: Seq<Seq<char>>,
    b: Seq<Seq<char>>,
    live: spec_fn(Seq<char>) -> Option<ManifestView>,
)
    ensures
        filled(a + b, live) == filled(a, live) + filled(b, live),
        filled(a, live).len() <= a.len(),
    decreases a.len() + b.len(),
{
    if b.len() > 0 {
        lemma_filled_joins(a, b.drop_last(), live);
        assert((a + b).drop_last() =~= a + b.drop_last());
        assert(filled(a + b, live) =~= filled(a, live) + filled(b, live));
    } else {
        assert(a + b =~= a);
        assert(filled(a + b, live) =~= filled(a, live) + filled(b, live));
        if a.len() > 0 {
            lemma_filled_joins(a.drop_last(), Seq::empty(), live);
        }
    }
}

/// All pages of a listing, each begun at the continuation token of the one before it, make up the
/// listing without a limit: the same objects and the same common prefixes in the same order. A page
/// has at most as many lines as the limit says, and one that is truncated has a token.
pub proof fn all_pages_make_one_listing(
    rels: Seq<Seq<char>>,
    live: spec_fn(Seq<char>) -> Option<ManifestView>,
    prefix: Seq<char>,
    delimiter: Seq<char>,
    starts: Seq<Seq<char>>,
    max: int,
    unlimited: int,
)
    requires
        manifest_keys(rels).no_duplicates(),
        !manifest_keys(rels).contains(Seq::<char>::empty()),
        max > 0,
        starts.len() > 0,
        forall|i: int|
            0 <= i < starts.len() - 1 ==> ({
                let page = page_reply(
                    rels,
                    live,
                    prefix,
                    delimiter,
                    #[trigger] starts[i],
                    max,
                );
                page.is_truncated && starts[i + 1] == page.next_continuation_token
            }),
        !page_reply(rels, live, prefix, delimiter, starts.last(), max).is_truncated,
        !page_reply(rels, live, prefix, delimiter, starts[0], unlimited).is_truncated,
    ensures
        ({
            let pages = Seq::new(
                starts.len(),
                |i: int| page_reply(rels, live, prefix, delimiter, starts[i], max),
            );
            let whole = page_reply(rels, live, prefix, delimiter, starts[0], unlimited);
            &&& joined_objects(pages) == whole.objects
            &&& joined_prefixes(pages) == whole.common_prefixes
            &&& forall|i: int|
                0 <= i < pages.len() ==> {
                    let page = #[trigger] pages[i];
                    &&& page.objects.len() + page.common_prefixes.len() <= max
                    &&& page.is_truncated ==> page.next_continuation_token.len() > 0
                }
        }),
    decreases starts.len(),
{
    let objects = listed_objects(rels, prefix, delimiter);
    let groups = listed_groups(rels, prefix, delimiter);
    let lines = all_lines(objects, groups, starts[0]);
    let first = first_lines(lines, max);
    let pages = Seq::new(
        starts.len(),
        |i: int| page_reply(rels, live, prefix, delimiter, starts[i], max),
    );
    let whole = page_reply(rels, live, prefix, delimiter, starts[0], unlimited);
    let none = Seq::<Item>::empty();
    lemma_lines_join(first, none);
    lemma_filled_joins(objects_of(first), Seq::empty(), live);
    if starts.len() == 1 {
        assert(pages.skip(1) =~= Seq::empty());
        assert(joined_objects(pages.skip(1)) =~= Seq::empty());
        assert(joined_prefixes(pages.skip(1)) =~= Seq::empty());
        assert(starts.last() == starts[0]);
        assert(pages[0].objects == whole.objects);
        assert(pages[0].common_prefixes == whole.common_prefixes);
        assert(joined_objects(pages) =~= whole.objects);
        assert(joined_prefixes(pages) =~= whole.common_prefixes);
    } else {
        let rest = starts.skip(1);
        let more = pages.skip(1);
        assert(page_reply(rels, live, prefix, delimiter, starts[0], max).is_truncated);
        listing_pages_join_up(rels, prefix, delimiter, starts[0], max);
        let left = lines.skip(max);
        assert(all_lines(objects, groups, starts[1]) == left);
        assert(rest[0] == starts[1]);
        assert forall|i: int| 0 <= i < rest.len() - 1 implies ({
            let page = page_reply(rels, live, prefix, delimiter, #[trigger] rest[i], max);
            page.is_truncated && rest[i + 1] == page.next_continuation_token
        }) by {
            assert(rest[i] == starts[i + 1]);
            assert(rest[i + 1] == starts[i + 2]);
        }
        assert(rest.last() == starts.last());
        all_pages_make_one_listing(
            rels,
            live,
            prefix,
            delimiter,
            rest,
            max,
            left.len() as int,
        );
        assert(more =~= Seq::new(
            rest.len(),
            |i: int| page_reply(rels, live, prefix, delimiter, rest[i], max),
        ));
        assert(lines =~= first + left);
        lemma_lines_join(first, left);
        lemma_filled_joins(objects_of(first), objects_of(left), live);
        assert forall|i: int| 0 <= i < pages.len() implies {
            let page = #[trigger] pages[i];
            &&& page.objects.len() + page.common_prefixes.len() <= max
            &&& page.is_truncated ==> page.next_continuation_token.len() > 0
        } by {
            if i > 0 {
                assert(pages[i] == more[i - 1]);
            }
        }
    }
}

pub proof fn lemma_plain_keys_distinct(keys: Seq<Seq<char>>, prefix: Seq<char>, delimiter: Seq<char>)
    requires
        keys.no_duplicates(),
    ensures
        plain_keys(keys, prefix, delimiter).no_duplicates(),
    decreases keys.len(),
{
    if keys.len() > 0 {
        let front = keys.drop_last();
        assert(front.no_duplicates());
        lemma_plain_keys_distinct(front, prefix, delimiter);
        let p = plain_keys(front, prefix, delimiter);
        every_key_is_listed_once(front, prefix, delimiter, keys.last());
        assert(!front.contains(keys.last())) by {
            if front.contains(keys.last()) {
                let i = choose|i: int| 0 <= i < front.len() && front[i] == keys.last();
                assert(keys[i] == keys[keys.len() - 1]);
            }
        }
        assert(!p.contains(keys.last()));
        assert(p.push(keys.last()).no_duplicates()) by {
            let q = p.push(keys.last());
            assert forall|i: int, j: int| 0 <= i < q.len() && 0 <= j < q.len() && i != j implies q[i]
                != q[j] by {
                if i == q.len() - 1 {
                    assert(p.contains(p[j]));
                } else if j == q.len() - 1 {
                    assert(p.contains(p[i]));
                }
            }
        }
    }
}

/// Distinct texts in order ascend strictly.
pub proof fn lemma_strict(s: Seq<Seq<char>>)
    requires
        s.no_duplicates(),
    ensures
        strictly_ascend(in_text_order(s)),
{
    lemma_in_text_order(s);
    let r = in_text_order(s);
    s.lemma_multiset_has_no_duplicates();
    r.lemma_multiset_has_no_duplicates_conv();
    assert forall|i: int, j: int| 0 <= i < j < r.len() implies text_before(
        #[trigger] r[i],
        #[trigger] r[j],
    ) by {
        lemma_text_order(r[i], r[j]);
        assert(r[i] != r[j]);
    }
}

} // verus!
