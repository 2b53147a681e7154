//! A walk through a tree of directories, one listing at a time.

use vstd::prelude::*;
use crate::filesystem::objects::{hides_files, is_hidden_dir};
use crate::plan::call::{Entry, EntryKind};
use crate::text::{concat, owned, texts};
use crate::types::{IoError, IoErrorKind};

verus! {

/// What a walk has yet to come to.
#[derive(Debug)]
pub enum Pending {
    Dir { rel: String },
    File { rel: String },
    Failed { error: IoError },
}

#[verifier::ext_equal]
pub enum PendingView {
    Dir { rel: Seq<char> },
    File { rel: Seq<char> },
    Failed { error: IoError },
}

impl View for Pending {
    type V = PendingView;

    open spec fn view(&self) -> PendingView {
        match self {
            Pending::Dir { rel } => PendingView::Dir { rel: rel@ },
            Pending::File { rel } => PendingView::File { rel: rel@ },
            Pending::Failed { error } => PendingView::Failed { error: *error },
        }
    }
}

/// A walk through a tree of directories. What it comes to next stands at the end of `pending`.
#[derive(Debug)]
pub struct TreeWalk {
    pub files: Vec<String>,
    pub pending: Vec<Pending>,
    /// Directories whose files are not objects are left alone.
    pub objects_only: bool,
}

#[verifier::ext_equal]
pub struct TreeWalkView {
    pub files: Seq<Seq<char>>,
    pub pending: Seq<PendingView>,
    pub objects_only: bool,
}

impl View for TreeWalk {
    type V = TreeWalkView;

    open spec fn view(&self) -> TreeWalkView {
        TreeWalkView {
            files: texts(self.files@),
            pending: self.pending@.map_values(|p: Pending| p@),
            objects_only: self.objects_only,
        }
    }
}

/// What a walk needs next.
#[derive(Debug)]
pub enum WalkStep {
    /// The entries of the directory at this path, the empty one for where the walk began.
    List { rel: String },
    /// Nothing: it has found all files.
    Done,
    /// Nothing: it came to something that could not be read.
    Failed { error: IoError },
}

#[verifier::ext_equal]
pub enum WalkStepView {
    List { rel: Seq<char> },
    Done,
    Failed { error: IoError },
}

impl View for WalkStep {
    type V = WalkStepView;

    open spec fn view(&self) -> WalkStepView {
        match self {
            WalkStep::List { rel } => WalkStepView::List { rel: rel@ },
            WalkStep::Done => WalkStepView::Done,
            WalkStep::Failed { error } => WalkStepView::Failed { error: *error },
        }
    }
}

/// The path of an entry of the directory at `rel`.
pub open spec fn entry_path(rel: Seq<char>, name: Seq<char>) -> Seq<char> {
    if rel.len() == 0 {
        name
    } else {
        rel.push('/') + name
    }
}

/// What an entry of a directory gives a walk to do. Links are not followed, and a walk for objects
/// enters no hidden directory.
pub open spec fn entry_work(
    rel: Seq<char>,
    entry: Result<Entry, IoError>,
    objects_only: bool,
) -> Seq<PendingView> {
    match entry {
        Err(error) => seq![PendingView::Failed { error }],
        Ok(e) => match e.kind {
            Some(EntryKind::Directory) => if objects_only && is_hidden_dir(e.name@) {
                Seq::empty()
            } else {
                seq![PendingView::Dir { rel: entry_path(rel, e.name@) }]
            },
            Some(EntryKind::File) => seq![PendingView::File { rel: entry_path(rel, e.name@) }],
            _ => Seq::empty(),
        },
    }
}

/// What the entries of a directory give a walk to do, the first at the end.
pub open spec fn listing_work(
    rel: Seq<char>,
    entries: Seq<Result<Entry, IoError>>,
    objects_only: bool,
) -> Seq<PendingView>
    decreases entries.len(),
{
    if entries.len() == 0 {
        Seq::empty()
    } else {
        listing_work(rel, entries.skip(1), objects_only) + entry_work(
            rel,
            entries[0],
            objects_only,
        )
    }
}

/// What a directory gives a walk to do once it was listed. One that is not there holds nothing.
pub open spec fn directory_work(
    rel: Seq<char>,
    listing: Result<Vec<Result<Entry, IoError>>, IoError>,
    objects_only: bool,
) -> Seq<PendingView> {
    match listing {
        Ok(entries) => listing_work(rel, entries@, objects_only),
        Err(error) => if error.kind == IoErrorKind::NotFound {
            Seq::empty()
        } else {
            seq![PendingView::Failed { error }]
        },
    }
}

/// A walk up to the next directory: the files on the way are found.
pub open spec fn advanced(w: TreeWalkView) -> (TreeWalkView, WalkStepView)
    decreases w.pending.len(),
{
    if w.pending.len() == 0 {
        (w, WalkStepView::Done)
    } else {
        let rest = w.pending.drop_last();
        match w.pending.last() {
            PendingView::File { rel } => advanced(
                TreeWalkView { files: w.files.push(rel), pending: rest, ..w },
            ),
            PendingView::Dir { rel } => (
                TreeWalkView { pending: rest, ..w },
                WalkStepView::List { rel },
            ),
            PendingView::Failed { error } => (
                TreeWalkView { pending: rest, ..w },
                WalkStepView::Failed { error },
            ),
        }
    }
}

fn path_of_entry(rel: &str, name: &str) -> (r: String)
    ensures
        r@ == entry_path(rel@, name@),
{
    if rel.is_empty() {
        owned(name)
    } else {
        proof {
            reveal_strlit("/");
            assert("/"@ =~= seq!['/']);
        }
        let front = concat(rel, "/");
        assert(front@ =~= rel@.push('/'));
        concat(front.as_str(), name)
    }
}

impl TreeWalk {
    /// A walk that begins at the directory `rel`.
    pub fn new(rel: &str) -> (r: TreeWalk)
        ensures
            r@ == (TreeWalkView {
                files: Seq::empty(),
                pending: seq![PendingView::Dir { rel: rel@ }],
                objects_only: false,
            }),
    {
        let mut pending: Vec<Pending> = Vec::new();
        pending.push(Pending::Dir { rel: owned(rel) });
        let r = TreeWalk { files: Vec::new(), pending, objects_only: false };
        assert(r@.files =~= Seq::empty());
        assert(r@.pending =~= seq![PendingView::Dir { rel: rel@ }]);
        r
    }

    /// A walk through a whole bucket of the plain layout, which leaves the hidden directories
    /// alone.
    pub fn over_objects() -> (r: TreeWalk)
        ensures
            r@ == (TreeWalkView {
                files: Seq::empty(),
                pending: seq![PendingView::Dir { rel: Seq::empty() }],
                objects_only: true,
            }),
    {
        let mut pending: Vec<Pending> = Vec::new();
        pending.push(Pending::Dir { rel: String::new() });
        let r = TreeWalk { files: Vec::new(), pending, objects_only: true };
        assert(r@.files =~= Seq::empty());
        assert(r@.pending =~= seq![PendingView::Dir { rel: Seq::empty() }]);
        r
    }

    /// Goes on to the next directory.
    pub fn advance(&mut self) -> (r: WalkStep)
        ensures
            (final(self)@, r@) == advanced(old(self)@),
    {
        let ghost start = self@;
        loop
            invariant
                advanced(self@) == advanced(start),
                start == old(self)@,
            decreases self.pending@.len(),
        {
            let ghost was = self@;
            match self.pending.pop() {
                None => {
                    assert(self@ == was);
                    assert(was.pending.len() == 0);
                    return WalkStep::Done;
                },
                Some(next) => {
                    assert(was.pending.last() == next@);
                    assert(self@.pending =~= was.pending.drop_last());
                    match next {
                        Pending::File { rel } => {
                            let ghost path = rel@;
                            self.files.push(rel);
                            assert(self@.files =~= was.files.push(path));
                        },
                        Pending::Dir { rel } => {
                            return WalkStep::List { rel };
                        },
                        Pending::Failed { error } => {
                            return WalkStep::Failed { error };
                        },
                    }
                },
            }
        }
    }

    /// Takes in what is in the directory `rel`.
    pub fn listed(&mut self, rel: &str, listing: Result<Vec<Result<Entry, IoError>>, IoError>)
        ensures
            final(self)@ == (TreeWalkView {
                files: old(self)@.files,
                pending: old(self)@.pending + directory_work(
                    rel@,
                    listing,
                    old(self)@.objects_only,
                ),
                objects_only: old(self)@.objects_only,
            }),
    {
        let entries = match listing {
            Ok(entries) => entries,
            Err(error) => {
                if error.kind != IoErrorKind::NotFound {
                    self.pending.push(Pending::Failed { error });
                }
                assert(self@.pending =~= old(self)@.pending + directory_work(
                    rel@,
                    listing,
                    self.objects_only,
                ));
                return ;
            },
        };
        let ghost all = entries@;
        let ghost before = self@.pending;
        let mut left: usize = entries.len();
        assert(all.skip(left as int) =~= Seq::empty());
        assert(self@.pending =~= before + listing_work(rel@, all.skip(left as int), self.objects_only));
        while left > 0
            invariant
                left <= entries@.len(),
                all == entries@,
                listing matches Ok(given) && given == entries,
                self.files == old(self).files,
                self.objects_only == old(self).objects_only,
                before == old(self)@.pending,
                self@.pending == before + listing_work(rel@, all.skip(left as int), self.objects_only),
            decreases left,
        {
            left = left - 1;
            let ghost was = self@.pending;
            let ghost rest = all.skip(left as int);
            proof {
                assert(rest.skip(1) =~= all.skip(left + 1));
                assert(rest[0] == all[left as int]);
            }
            match &entries[left] {
                Err(e) => {
                    self.pending.push(Pending::Failed { error: *e });
                },
                Ok(e) => match e.kind {
                    Some(EntryKind::Directory) => {
                        if !self.objects_only || !hides_files(e.name.as_str()) {
                            let path = path_of_entry(rel, e.name.as_str());
                            self.pending.push(Pending::Dir { rel: path });
                        }
                    },
                    Some(EntryKind::File) => {
                        let path = path_of_entry(rel, e.name.as_str());
                        self.pending.push(Pending::File { rel: path });
                    },
                    _ => {},
                },
            }
            assert(self@.pending =~= was + entry_work(rel@, all[left as int], self.objects_only));
            assert(self@.pending =~= before + listing_work(rel@, rest, self.objects_only));
        }
        assert(all.skip(0) =~= all);
    }
}

/// A tree of directories. `Other` stands for links and the like.
pub enum Tree {
    File,
    Dir { entries: Seq<(Seq<char>, Tree)> },
    Other,
}

/// Whether a walk goes through an entry of a directory.
pub open spec fn is_walked(entry: (Seq<char>, Tree), objects_only: bool) -> bool {
    !(entry.1 is Other) && !(objects_only && entry.1 is Dir && is_hidden_dir(entry.0))
}

/// The paths of the files in a tree that hangs at `rel`, in the order of the listings. A walk for
/// objects finds none in a hidden directory.
pub open spec fn tree_files(rel: Seq<char>, tree: Tree, objects_only: bool) -> Seq<Seq<char>>
    decreases tree,
{
    match tree {
        Tree::File => seq![rel],
        Tree::Dir { entries } => entry_files(rel, entries, objects_only),
        Tree::Other => Seq::empty(),
    }
}

/// The paths of the files below the entries of a directory at `rel`.
pub open spec fn entry_files(
    rel: Seq<char>,
    entries: Seq<(Seq<char>, Tree)>,
    objects_only: bool,
) -> Seq<Seq<char>>
    decreases entries,
{
    if entries.len() == 0 {
        Seq::empty()
    } else {
        (if is_walked(entries[0], objects_only) {
            tree_files(entry_path(rel, entries[0].0), entries[0].1, objects_only)
        } else {
            Seq::empty()
        }) + entry_files(rel, entries.subrange(1, entries.len() as int), objects_only)
    }
}

/// What is pending is a tree.
pub open spec fn stands_for(pending: PendingView, tree: Tree) -> bool {
    match pending {
        PendingView::Dir { .. } => tree is Dir,
        PendingView::File { .. } => tree is File,
        PendingView::Failed { .. } => false,
    }
}

/// All that is pending are these trees.
pub open spec fn all_stand_for(pending: Seq<PendingView>, trees: Seq<Tree>) -> bool {
    &&& pending.len() == trees.len()
    &&& forall|i: int| 0 <= i < pending.len() ==> stands_for(#[trigger] pending[i], trees[i])
}

pub open spec fn pending_path(pending: PendingView) -> Seq<char> {
    match pending {
        PendingView::Dir { rel } => rel,
        PendingView::File { rel } => rel,
        PendingView::Failed { .. } => Seq::empty(),
    }
}

/// The files that a walk has yet to find, in the order in which it comes to them.
pub open spec fn files_left(
    pending: Seq<PendingView>,
    trees: Seq<Tree>,
    objects_only: bool,
) -> Seq<Seq<char>>
    decreases pending.len(),
{
    if pending.len() == 0 {
        Seq::empty()
    } else {
        tree_files(pending_path(pending.last()), trees[pending.len() - 1], objects_only)
            + files_left(pending.drop_last(), trees, objects_only)
    }
}

/// A listing shows the entries of a directory.
pub open spec fn shows(
    listing: Seq<Result<Entry, IoError>>,
    entries: Seq<(Seq<char>, Tree)>,
) -> bool {
    &&& listing.len() == entries.len()
    &&& forall|i: int| 0 <= i < listing.len() ==> shows_entry(#[trigger] listing[i], entries[i])
}

pub open spec fn shows_entry(shown: Result<Entry, IoError>, entry: (Seq<char>, Tree)) -> bool {
    match shown {
        Ok(e) => e.name@ == entry.0 && (match entry.1 {
            Tree::File => e.kind == Some(EntryKind::File),
            Tree::Dir { .. } => e.kind == Some(EntryKind::Directory),
            Tree::Other => e.kind != Some(EntryKind::File) && e.kind != Some(
                EntryKind::Directory,
            ),
        }),
        Err(_) => false,
    }
}

/// The trees among the entries of a directory that a walk goes through, the first at the end.
pub open spec fn walked_trees(entries: Seq<(Seq<char>, Tree)>, objects_only: bool) -> Seq<Tree>
    decreases entries.len(),
{
    if entries.len() == 0 {
        Seq::empty()
    } else {
        walked_trees(entries.subrange(1, entries.len() as int), objects_only) + if is_walked(
            entries[0],
            objects_only,
        ) {
            seq![entries[0].1]
        } else {
            Seq::empty()
        }
    }
}

proof fn lemma_files_left_prefix(pending: Seq<PendingView>, a: Seq<Tree>, b: Seq<Tree>, o: bool)
    requires
        pending.len() <= a.len(),
        pending.len() <= b.len(),
        forall|i: int| 0 <= i < pending.len() ==> a[i] == b[i],
    ensures
        files_left(pending, a, o) == files_left(pending, b, o),
    decreases pending.len(),
{
    if pending.len() > 0 {
        lemma_files_left_prefix(pending.drop_last(), a, b, o);
    }
}

/// What comes later in a walk is found later.
proof fn lemma_files_left_split(
    early: Seq<PendingView>,
    late: Seq<PendingView>,
    early_trees: Seq<Tree>,
    late_trees: Seq<Tree>,
    o: bool,
)
    requires
        early.len() == early_trees.len(),
        late.len() == late_trees.len(),
    ensures
        files_left(late + early, late_trees + early_trees, o) == files_left(early, early_trees, o)
            + files_left(late, late_trees, o),
    decreases early.len(),
{
    let all = late + early;
    let trees = late_trees + early_trees;
    if early.len() == 0 {
        assert(all =~= late);
        assert(trees =~= late_trees);
        assert(files_left(early, early_trees, o) + files_left(late, late_trees, o) =~= files_left(
            late,
            late_trees,
            o,
        ));
    } else {
        let front = early_trees.drop_last();
        lemma_files_left_split(early.drop_last(), late, front, late_trees, o);
        assert(all.drop_last() =~= late + early.drop_last());
        lemma_files_left_prefix(all.drop_last(), trees, late_trees + front, o);
        lemma_files_left_prefix(early.drop_last(), early_trees, front, o);
        assert(all.last() == early.last());
        assert(trees[all.len() - 1] == early_trees[early.len() - 1]);
        assert(files_left(all, trees, o) =~= files_left(early, early_trees, o) + files_left(
            late,
            late_trees,
            o,
        ));
    }
}

/// A listing gives a walk exactly the trees of the directory to do.
proof fn lemma_listing_work(
    rel: Seq<char>,
    listing: Seq<Result<Entry, IoError>>,
    entries: Seq<(Seq<char>, Tree)>,
    o: bool,
)
    requires
        shows(listing, entries),
    ensures
        all_stand_for(listing_work(rel, listing, o), walked_trees(entries, o)),
        files_left(listing_work(rel, listing, o), walked_trees(entries, o), o) == entry_files(
            rel,
            entries,
            o,
        ),
    decreases listing.len(),
{
    if listing.len() > 0 {
        let rest = listing.skip(1);
        let others = entries.subrange(1, entries.len() as int);
        assert forall|i: int| 0 <= i < rest.len() implies shows_entry(
            #[trigger] rest[i],
            others[i],
        ) by {
            assert(shows_entry(listing[i + 1], entries[i + 1]));
        }
        lemma_listing_work(rel, rest, others, o);
        assert(shows_entry(listing[0], entries[0]));
        let work = entry_work(rel, listing[0], o);
        let tree = if is_walked(entries[0], o) {
            seq![entries[0].1]
        } else {
            Seq::empty()
        };
        assert(work.len() == tree.len());
        lemma_files_left_split(work, listing_work(rel, rest, o), tree, walked_trees(others, o), o);
        let path = entry_path(rel, entries[0].0);
        let found = if is_walked(entries[0], o) {
            tree_files(path, entries[0].1, o)
        } else {
            Seq::empty()
        };
        assert(files_left(work, tree, o) =~= found) by {
            if work.len() > 0 {
                assert(work.drop_last() =~= Seq::empty());
                assert(files_left(work.drop_last(), tree, o) =~= Seq::empty());
                assert(work.last() == work[0]);
                assert(pending_path(work[0]) == path);
                assert(tree[0] == entries[0].1);
            }
        }
    }
}

/// A walk up to the next directory finds the files on the way and loses none of the others.
proof fn lemma_advanced(w: TreeWalkView, trees: Seq<Tree>)
    requires
        all_stand_for(w.pending, trees),
    ensures
        ({
            let (next, step) = advanced(w);
            let n = next.pending.len() as int;
            &&& n <= w.pending.len()
            &&& next.pending == w.pending.take(n)
            &&& next.objects_only == w.objects_only
            &&& match step {
                WalkStepView::List { rel } => {
                    &&& n < trees.len()
                    &&& trees[n] is Dir
                    &&& w.files + files_left(w.pending, trees, w.objects_only) == next.files
                        + tree_files(rel, trees[n], w.objects_only) + files_left(
                        next.pending,
                        trees.take(n),
                        w.objects_only,
                    )
                },
                WalkStepView::Done => w.files + files_left(w.pending, trees, w.objects_only) == next.files,
                WalkStepView::Failed { .. } => false,
            }
        }),
    decreases w.pending.len(),
{
    let n = w.pending.len() as int;
    if n == 0 {
        assert(w.pending.take(0) =~= w.pending);
        assert(w.files + files_left(w.pending, trees, w.objects_only) =~= w.files);
    } else {
        let rest = w.pending.drop_last();
        assert(stands_for(w.pending[n - 1], trees[n - 1]));
        lemma_files_left_prefix(rest, trees, trees.take(n - 1), w.objects_only);
        assert(rest =~= w.pending.take(n - 1));
        match w.pending.last() {
            PendingView::File { rel } => {
                let on = TreeWalkView { files: w.files.push(rel), pending: rest, ..w };
                let front = trees.drop_last();
                assert forall|i: int| 0 <= i < rest.len() implies stands_for(
                    #[trigger] rest[i],
                    front[i],
                ) by {
                    assert(stands_for(w.pending[i], trees[i]));
                }
                lemma_advanced(on, front);
                lemma_files_left_prefix(rest, trees, front, w.objects_only);
                assert(w.files + files_left(w.pending, trees, w.objects_only) =~= on.files + files_left(
                    rest,
                    front,
                    w.objects_only,
                ));
                let m = advanced(on).0.pending.len() as int;
                assert(rest.take(m) =~= w.pending.take(m));
                assert(front.take(m) =~= trees.take(m));
            },
            PendingView::Dir { rel } => {
                assert(w.files + files_left(w.pending, trees, w.objects_only) =~= w.files + tree_files(
                    rel,
                    trees[n - 1],
                    w.objects_only,
                ) + files_left(rest, trees.take(n - 1), w.objects_only));
            },
            PendingView::Failed { .. } => {},
        }
    }
}

/// One turn of a walk, from one directory to the next, loses no file of the tree: what it has
/// found and what it has yet to find stay the same together, in the same order.
pub proof fn walk_loses_no_file(
    w: TreeWalkView,
    trees: Seq<Tree>,
    listing: Vec<Result<Entry, IoError>>,
)
    requires
        all_stand_for(w.pending, trees),
        advanced(w).1 is List,
        shows(listing@, trees[advanced(w).0.pending.len() as int]->entries),
    ensures
        ({
            let (on, step) = advanced(w);
            let n = on.pending.len() as int;
            let next = TreeWalkView {
                files: on.files,
                pending: on.pending + directory_work(
                    step->List_rel,
                    Ok(listing),
                    w.objects_only,
                ),
                objects_only: w.objects_only,
            };
            let next_trees = trees.take(n) + walked_trees(trees[n]->entries, w.objects_only);
            &&& all_stand_for(next.pending, next_trees)
            &&& next.files + files_left(next.pending, next_trees, w.objects_only) == w.files
                + files_left(w.pending, trees, w.objects_only)
        }),
{
    lemma_advanced(w, trees);
    let (on, step) = advanced(w);
    let n = on.pending.len() as int;
    let rel = step->List_rel;
    let entries = trees[n]->entries;
    let o = w.objects_only;
    lemma_listing_work(rel, listing@, entries, o);
    let work = listing_work(rel, listing@, o);
    let kids = walked_trees(entries, o);
    assert(on.pending.len() == trees.take(n).len());
    lemma_files_left_split(work, on.pending, kids, trees.take(n), o);
    assert forall|i: int| 0 <= i < (on.pending + work).len() implies stands_for(
        #[trigger] (on.pending + work)[i],
        (trees.take(n) + kids)[i],
    ) by {
        if i < n {
            assert(stands_for(w.pending[i], trees[i]));
        } else {
            assert(stands_for(work[i - n], kids[i - n]));
        }
    }
    assert(on.files + files_left(on.pending + work, trees.take(n) + kids, o) =~= on.files
        + tree_files(rel, trees[n], o) + files_left(on.pending, trees.take(n), o));
}

/// A walk that is over has found every file of the tree, once and in order.
pub proof fn finished_walk_found_every_file(w: TreeWalkView, trees: Seq<Tree>)
    requires
        all_stand_for(w.pending, trees),
        advanced(w).1 is Done,
    ensures
        advanced(w).0.files == w.files + files_left(w.pending, trees, w.objects_only),
{
    lemma_advanced(w, trees);
}

} // verus!
