//! Where files lie, how directories are walked, and how texts are handled.

use vstd::arithmetic::div_mod::{lemma_mod_mod, lemma_mul_mod_noop};
use vstd::prelude::*;
use vstd::utf8::encode_utf8;
use crate::cas::browse::{
    is_plain_segment, keys_of_files, manifest_keys, prefix_walk_root, Browsing,
};
use crate::cas::objects::depth_of;
use crate::cas::store::{
    assert_real_parent_within_root, bucket_lock_shard, fnv, fnv_start, fnv_step, key_lock_shard,
    resolves_inside, CasStore, CommitIds,
};
use crate::filesystem::store::parent_of;
use crate::manifest::{decoded_key, Manifest};
use crate::path::{inner_pieces, path_inner_components, path_join, within};
use crate::plan::call::{CallView, Entry, EntryKind, QuestionView, Report};
use crate::plan::place::{bucket_root, locate, Place};
use crate::plan::runner::{must, Plan, StepView};
use crate::promises::listing::{lemma_less_at, occurs_at};
use crate::promises::names::{
    is_proper_bucket, is_proper_key, lemma_location, lemma_proper_bucket, lemma_read_back, lemma_single,
};
use crate::promises::sweeps::has_text_in;
use crate::promises::uploads::less;
use crate::sorting::{lemma_in_text_order, lemma_text_set, names, sort_by_name, sort_text_set};
use crate::text::{
    concat, contains, ends_with, has_char, joined, pieces, same, split, stands_at, starts_with,
    text_before, texts,
};
use crate::types::{IoError, IoErrorKind, ListObjectsInput, StorageError};
use crate::walk::{directory_work, entry_work, listing_work, PendingView, TreeWalk};

verus! {

/// A relative path: it names something, and neither begins nor ends with a slash.
pub open spec fn is_relative(s: Seq<char>) -> bool {
    s.len() > 0 && s[0] != '/' && s.last() != '/'
}

/// A path with one slash and another path behind it.
pub open spec fn under(base: Seq<char>, rel: Seq<char>) -> Seq<char> {
    base + seq!['/'] + rel
}

proof fn lemma_under(base: Seq<char>, rel: Seq<char>)
    requires
        base.len() > 0,
        base.last() != '/',
        is_relative(rel),
    ensures
        path_join(base, rel) == under(base, rel),
        under(base, rel).len() > 0,
        under(base, rel).last() != '/',
{
    assert(base.push('/') + rel =~= under(base, rel));
    assert(under(base, rel).last() == rel.last());
}

/// Each place lies where it belongs below the data root.
pub open spec fn lies_at(
    root: Seq<char>,
    bucket: Seq<char>,
    place: crate::plan::place::PlaceView,
    path: Seq<char>,
) -> bool {
    let base = under(root, bucket);
    let uploads = under(root, ".multipart"@);
    match place {
        Place::DataRoot => path == root,
        Place::Bucket => path == base,
        Place::Current => path == under(base, "current"@),
        Place::Arriving => path == under(base, "arriving"@),
        Place::Blobs => path == under(base, "blobs"@),
        Place::Deleted => path == under(base, "deleted"@),
        Place::Manifest { key } => is_proper_key(key) ==> path == under(under(base, "current"@), key)
            + ".s3gw-live.meta"@,
        Place::Staged { name } => is_relative(name) ==> path == under(
            under(base, "arriving"@),
            name,
        ),
        Place::Journal { name } => is_relative(name) ==> path == under(under(base, "deleted"@), name),
        Place::Upload { id } => is_relative(id) ==> path == under(under(base, "arriving"@), id),
        Place::UploadFile { id, name } => is_relative(id) && is_relative(name) ==> path == under(
            under(under(base, "arriving"@), id),
            name,
        ),
        Place::PartFile { id, name } => is_relative(id) && is_relative(name) ==> path == under(
            under(under(under(base, "arriving"@), id), "parts"@),
            name,
        ),
        Place::CurrentFile { rel } => is_relative(rel) ==> path == under(
            under(base, "current"@),
            rel,
        ),
        Place::BlobFile { rel } => is_relative(rel) ==> path == under(under(base, "blobs"@), rel),
        Place::Object { key } => is_relative(key) ==> path == under(base, key),
        Place::ObjectSide { key, suffix } => is_relative(key) ==> path == under(base, key) + suffix,
        Place::StoredPart { key, name } => is_relative(key) && is_relative(name) ==> path == under(
            under(base, key) + ".parts"@,
            name,
        ),
        Place::BucketUploads => path == under(base, ".multipart"@),
        Place::Uploads => path == uploads,
        Place::PlainUpload { id } => is_relative(id) ==> path == under(uploads, id),
        Place::PlainUploadFile { id, name } => is_relative(id) && is_relative(name) ==> path == under(
            under(uploads, id),
            name,
        ),
        Place::PlainPart { id, name } => is_relative(id) && is_relative(name) ==> path == under(
            under(under(uploads, id), "parts"@),
            name,
        ),
        _ => true,
    }
}

/// Where the places of a bucket lie.
#[verifier::spinoff_prover]
#[verifier::rlimit(60)]
pub proof fn places_lie_where_they_belong(
    root: &str,
    bucket: &str,
    place: &Place<String>,
    r: String,
)
    requires
        call_ensures(locate, (root, bucket, place), r),
        root@.len() > 0,
        root@.last() != '/',
        is_proper_bucket(bucket@),
    ensures
        lies_at(root@, bucket@, place@, r@),
{
    let base = under(root@, bucket@);
    reveal_strlit("current");
    reveal_strlit("arriving");
    reveal_strlit("blobs");
    reveal_strlit("deleted");
    reveal_strlit("parts");
    reveal_strlit(".parts");
    reveal_strlit(".multipart");
    assert(is_relative(bucket@));
    lemma_under(root@, bucket@);
    assert(bucket_root(root@, bucket@) == base);
    lemma_under(base, "current"@);
    lemma_under(base, "arriving"@);
    lemma_under(base, "blobs"@);
    lemma_under(base, "deleted"@);
    lemma_under(base, ".multipart"@);
    lemma_under(root@, ".multipart"@);
    let uploads = under(root@, ".multipart"@);
    match place@ {
        Place::Manifest { key } => {
            if is_proper_key(key) {
                lemma_location(under(base, "current"@), key);
            }
        },
        Place::Staged { name } => {
            if is_relative(name) {
                lemma_under(under(base, "arriving"@), name);
            }
        },
        Place::Journal { name } => {
            if is_relative(name) {
                lemma_under(under(base, "deleted"@), name);
            }
        },
        Place::Upload { id } => {
            if is_relative(id) {
                lemma_under(under(base, "arriving"@), id);
            }
        },
        Place::UploadFile { id, name } => {
            if is_relative(id) && is_relative(name) {
                lemma_under(under(base, "arriving"@), id);
                lemma_under(under(under(base, "arriving"@), id), name);
            }
        },
        Place::PartFile { id, name } => {
            if is_relative(id) && is_relative(name) {
                let dir = under(under(base, "arriving"@), id);
                lemma_under(under(base, "arriving"@), id);
                lemma_under(dir, "parts"@);
                lemma_under(under(dir, "parts"@), name);
            }
        },
        Place::CurrentFile { rel } => {
            if is_relative(rel) {
                lemma_under(under(base, "current"@), rel);
            }
        },
        Place::BlobFile { rel } => {
            if is_relative(rel) {
                lemma_under(under(base, "blobs"@), rel);
            }
        },
        Place::Object { key } => {
            if is_relative(key) {
                lemma_under(base, key);
            }
        },
        Place::ObjectSide { key, .. } => {
            if is_relative(key) {
                lemma_under(base, key);
            }
        },
        Place::StoredPart { key, name } => {
            if is_relative(key) && is_relative(name) {
                lemma_under(base, key);
                let store = under(base, key) + ".parts"@;
                assert(store.last() == ".parts"@.last());
                lemma_under(store, name);
            }
        },
        Place::PlainUpload { id } => {
            if is_relative(id) {
                lemma_under(uploads, id);
            }
        },
        Place::PlainUploadFile { id, name } => {
            if is_relative(id) && is_relative(name) {
                lemma_under(uploads, id);
                lemma_under(under(uploads, id), name);
            }
        },
        Place::PlainPart { id, name } => {
            if is_relative(id) && is_relative(name) {
                let dir = under(uploads, id);
                lemma_under(uploads, id);
                lemma_under(dir, "parts"@);
                lemma_under(under(dir, "parts"@), name);
            }
        },
        _ => {},
    }
}

/// The names of the files of a commit: each has the id it was drawn, and what it is for.
pub proof fn commit_files_are_named_by_their_ids(
    ids: &CommitIds,
    staged: String,
    journal: String,
    tmp: String,
)
    requires
        call_ensures(CommitIds::make_staged_name, (ids,), staged),
        call_ensures(CommitIds::make_journal_name, (ids,), journal),
        call_ensures(CommitIds::make_journal_tmp_name, (ids,), tmp),
    ensures
        staged@ == ids.staged@ + ".manifest"@,
        journal@ == ids.journal@ + ".journal"@,
        tmp@ == ids.journal@ + ".journal.tmp."@ + ids.journal_tmp@,
{
}

/// The locks of keys are numbered below 256, those of buckets below 64.
pub proof fn locks_are_numbered(bucket: &str, key: &str, a: usize, b: usize)
    requires
        call_ensures(key_lock_shard, (bucket, key), a),
        call_ensures(bucket_lock_shard, (bucket,), b),
    ensures
        a < 256,
        b < 64,
{
}

proof fn lemma_low_bits(h: u64, b: u8, m: u64)
    requires
        m == 64 || m == 256,
    ensures
        fnv_step(h, b) % m == (((h % m) ^ (b as u64)) * 0x1b3) % (m as int),
{
    let x = h ^ (b as u64);
    let y = (h % m) ^ (b as u64);
    let c = b as u64;
    assert((h ^ c) % 64 == ((h % 64) ^ c) % 64) by (bit_vector);
    assert((h ^ c) % 256 == ((h % 256) ^ c) % 256) by (bit_vector);
    assert(x % m == y % m);
    let p = 0x0000_0100_0000_01b3int;
    let w = 0x1_0000_0000_0000_0000int;
    assert(w == (w / (m as int)) * (m as int));
    lemma_mod_mod(x * p, m as int, w / (m as int));
    assert((x * p) % w % (m as int) == (x * p) % (m as int));
    lemma_mul_mod_noop(x as int, p, m as int);
    lemma_mul_mod_noop(y as int, 0x1b3, m as int);
    assert(p % (m as int) == 0x1b3int % (m as int));
    assert(fnv_step(h, b) == (x as nat * p as nat) % (w as nat));
}

/// The number of a lock goes by the text, byte by byte: one more byte is mixed in with the same
/// factor, whatever stood before it. A key is mixed in behind the bucket and a slash.
pub proof fn lock_number_goes_by_the_text(
    short: &str,
    long: &str,
    b: u8,
    bucket: &str,
    bucket_short: usize,
    bucket_long: usize,
    key_short: usize,
    key_long: usize,
)
    requires
        encode_utf8(long@) == encode_utf8(short@).push(b),
        call_ensures(bucket_lock_shard, (short,), bucket_short),
        call_ensures(bucket_lock_shard, (long,), bucket_long),
        call_ensures(key_lock_shard, (bucket, short), key_short),
        call_ensures(key_lock_shard, (bucket, long), key_long),
    ensures
        bucket_long == ((bucket_short ^ (b as usize)) * 0x1b3) % 64,
        key_long == ((key_short ^ (b as usize)) * 0x1b3) % 256,
{
    let text = encode_utf8(long@);
    assert(text.drop_last() =~= encode_utf8(short@));
    let h = fnv(fnv_start(), encode_utf8(short@));
    assert(fnv(fnv_start(), text) == fnv_step(h, b));
    lemma_low_bits(h, b, 64);
    let start = fnv(fnv(fnv_start(), encode_utf8(bucket@)), seq!['/' as u8]);
    let g = fnv(start, encode_utf8(short@));
    assert(fnv(start, text) == fnv_step(g, b));
    lemma_low_bits(g, b, 256);
}

proof fn lemma_fnv_concat(h: u64, a: Seq<u8>, b: Seq<u8>)
    ensures
        fnv(h, a + b) == fnv(fnv(h, a), b),
    decreases b.len(),
{
    if b.len() == 0 {
        assert(a + b =~= a);
    } else {
        assert((a + b).drop_last() =~= a + b.drop_last());
        lemma_fnv_concat(h, a, b.drop_last());
    }
}

/// The locks of keys and of buckets are numbered by one hash, that of the bucket, a slash and the
/// key. It begins with a fixed number.
pub proof fn locks_are_numbered_by_one_hash(
    bucket: &str,
    key: &str,
    whole: &str,
    of_key: usize,
    of_whole: usize,
)
    requires
        encode_utf8(whole@) == encode_utf8(bucket@) + seq!['/' as u8] + encode_utf8(key@),
        call_ensures(key_lock_shard, (bucket, key), of_key),
        call_ensures(bucket_lock_shard, (whole,), of_whole),
    ensures
        of_key % 64 == of_whole,
{
    let a = encode_utf8(bucket@);
    let slash = seq!['/' as u8];
    let h = fnv_start();
    lemma_fnv_concat(h, a, slash);
    lemma_fnv_concat(h, a + slash, encode_utf8(key@));
    let all = fnv(h, encode_utf8(whole@));
    assert((all % 256) % 64 == all % 64) by (bit_vector);
}

/// The hash of nothing is the number it begins with.
pub proof fn empty_name_has_the_first_number(name: &str, r: usize)
    requires
        encode_utf8(name@).len() == 0,
        call_ensures(bucket_lock_shard, (name,), r),
    ensures
        r == 0x25,
{
    assert(fnv(fnv_start(), encode_utf8(name@)) == 0xcbf2_9ce4_8422_2325);
    assert(0xcbf2_9ce4_8422_2325u64 % 64 == 0x25);
}

/// A path leads out of the data root exactly where the first directory above it that resolves lies
/// outside. Where nothing resolves there is nothing to say against it.
pub proof fn path_is_held_against_the_root(
    root: &Option<String>,
    above: &Vec<Option<String>>,
    k: int,
    a: &str,
    b: &str,
    inside: bool,
    r: Result<(), StorageError>,
)
    requires
        call_ensures(assert_real_parent_within_root, (root, above), r),
        0 <= k <= above@.len(),
        forall|i: int| 0 <= i < k ==> #[trigger] above@[i] is None,
        k < above@.len() ==> above@[k] is Some,
        *root matches Some(t) ==> a@ == t@,
        k < above@.len() ==> b@ == above@[k]->0@,
        call_ensures(within, (a, b), inside),
    ensures
        *root is None || k == above@.len() ==> r == Ok::<(), StorageError>(()),
        *root is Some && k < above@.len() && inside ==> r == Ok::<(), StorageError>(()),
        *root is Some && k < above@.len() && !inside ==> r == Err::<(), StorageError>(
            StorageError::PathTraversal,
        ),
{
    if *root is Some {
        lemma_resolves(a@, above@, k);
    }
}

proof fn lemma_resolves(base: Seq<char>, above: Seq<Option<String>>, k: int)
    requires
        0 <= k <= above.len(),
        forall|i: int| 0 <= i < k ==> #[trigger] above[i] is None,
        k < above.len() ==> above[k] is Some,
    ensures
        k == above.len() ==> resolves_inside(Some(base), above),
        k < above.len() ==> resolves_inside(Some(base), above) == crate::path::is_within(
            base,
            above[k]->0@,
        ),
    decreases k,
{
    if k > 0 {
        let rest = above.skip(1);
        assert(above[0] is None);
        assert forall|i: int| 0 <= i < k - 1 implies #[trigger] rest[i] is None by {
            assert(above[i + 1] is None);
        }
        assert(k < above.len() ==> rest[k - 1] == above[k]);
        lemma_resolves(base, rest, k - 1);
    }
}

/// What an entry of a directory gives a walk to do: a directory is walked, a file is found, under
/// the path of the directory, a slash and its name. Links and other things are passed over, and a
/// walk for objects passes over hidden directories.
pub proof fn walk_follows_files_and_directories(
    rel: Seq<char>,
    e: Entry,
    objects_only: bool,
)
    ensures
        ({
            let path = if rel.len() == 0 {
                e.name@
            } else {
                rel + seq!['/'] + e.name@
            };
            let hidden = e.name@ == ".multipart"@ || ".parts"@.is_suffix_of(e.name@);
            let work = entry_work(rel, Ok::<Entry, IoError>(e), objects_only);
            &&& e.kind == Some(EntryKind::File) ==> work == seq![PendingView::File { rel: path }]
            &&& e.kind == Some(EntryKind::Directory) && !(objects_only && hidden) ==> work == seq![
                PendingView::Dir { rel: path },
            ]
            &&& e.kind == Some(EntryKind::Directory) && objects_only && hidden ==> work.len() == 0
            &&& e.kind is None || e.kind == Some(EntryKind::Other) ==> work.len() == 0
        }),
{
    assert(rel.push('/') + e.name@ =~= rel + seq!['/'] + e.name@);
}

/// A directory that is not there holds nothing; one that cannot be listed fails the walk; any other
/// gives what its entries give, the first of them next.
pub proof fn walk_takes_the_entries_in_turn(
    rel: Seq<char>,
    listing: Result<Vec<Result<Entry, IoError>>, IoError>,
    objects_only: bool,
)
    ensures
        ({
            let work = directory_work(rel, listing, objects_only);
            &&& listing matches Err(error) ==> (if error.kind == IoErrorKind::NotFound {
                work.len() == 0
            } else {
                work == seq![PendingView::Failed { error }]
            })
            &&& listing matches Ok(entries) ==> (entries@.len() > 0 ==> work == listing_work(
                rel,
                entries@.skip(1),
                objects_only,
            ) + entry_work(rel, entries@[0], objects_only))
            &&& listing matches Ok(entries) ==> (entries@.len() == 0 ==> work.len() == 0)
        }),
{
}

/// A walk begins at its directory with nothing found. Only a walk for objects passes over hidden
/// directories.
pub proof fn walk_begins_at_its_directory(rel: &str, a: TreeWalk, b: TreeWalk)
    requires
        call_ensures(TreeWalk::new, (rel,), a),
        call_ensures(TreeWalk::over_objects, (), b),
    ensures
        a@.files.len() == 0 && a@.pending == seq![PendingView::Dir { rel: rel@ }]
            && !a@.objects_only,
        b@.files.len() == 0 && b@.pending == seq![PendingView::Dir { rel: Seq::empty() }]
            && b@.objects_only,
{
}

/// The keys of a bucket are those of its manifests: a file that is the manifest of a key gives that
/// key, and the keys are no more than the files.
pub proof fn every_manifest_gives_its_key(
    files: &Vec<String>,
    r: Vec<String>,
    i: int,
    key: Seq<char>,
)
    requires
        call_ensures(keys_of_files, (files,), r),
    ensures
        r@.len() <= files@.len(),
        0 <= i < files@.len() && is_proper_key(key) && files@[i]@ == key + ".s3gw-live.meta"@
            ==> has_text_in(r@, key),
{
    let all = texts(files@);
    lemma_key_count(all);
    assert(texts(r@).len() == r@.len());
    if 0 <= i < files@.len() && is_proper_key(key) && files@[i]@ == key + ".s3gw-live.meta"@ {
        lemma_read_back(key);
        assert(all[i] == files@[i]@);
        lemma_key_kept(all, i);
        let k = texts(r@).index_of(key);
        assert(r@[k]@ == key);
    }
}

proof fn lemma_key_count(rels: Seq<Seq<char>>)
    ensures
        manifest_keys(rels).len() <= rels.len(),
    decreases rels.len(),
{
    if rels.len() > 0 {
        lemma_key_count(rels.drop_last());
    }
}

proof fn lemma_key_kept(rels: Seq<Seq<char>>, i: int)
    requires
        0 <= i < rels.len(),
        decoded_key(rels[i]) is Some,
    ensures
        manifest_keys(rels).contains(decoded_key(rels[i])->0),
    decreases rels.len(),
{
    let front = rels.drop_last();
    let all = manifest_keys(rels);
    let key = decoded_key(rels[i])->0;
    if i < front.len() {
        lemma_key_kept(front, i);
        let k = manifest_keys(front).index_of(key);
        assert(all[k] == key);
    } else {
        assert(all[all.len() - 1] == key);
    }
}

/// A list is sorted by the bytes of its texts, and none is lost or added.
pub proof fn texts_are_sorted(items: Vec<String>, r: Vec<String>)
    requires
        call_ensures(sort_by_name::<String>, (items,), r),
    ensures
        texts(r@).to_multiset() == texts(items@).to_multiset(),
        forall|i: int, j: int|
            0 <= i < j < r@.len() ==> !less((#[trigger] r@[j])@, (#[trigger] r@[i])@),
{
    assert(names(r@) =~= texts(r@));
    assert(names(items@) =~= texts(items@));
    lemma_in_text_order(texts(items@));
    assert forall|i: int, j: int| 0 <= i < j < r@.len() implies !less(
        (#[trigger] r@[j])@,
        (#[trigger] r@[i])@,
    ) by {
        assert(!text_before(texts(r@)[j], texts(r@)[i]));
        lemma_less_at(encode_utf8(r@[j]@), encode_utf8(r@[i]@));
    }
}

/// A list becomes a set by sorting it and keeping each text once.
pub proof fn texts_are_sorted_and_kept_once(items: Vec<String>, r: Vec<String>, t: Seq<char>)
    requires
        call_ensures(sort_text_set, (items,), r),
    ensures
        texts(r@).contains(t) <==> texts(items@).contains(t),
        forall|i: int, j: int|
            0 <= i < j < r@.len() ==> less((#[trigger] r@[i])@, (#[trigger] r@[j])@),
{
    lemma_text_set(texts(items@));
    assert forall|i: int, j: int| 0 <= i < j < r@.len() implies less(
        (#[trigger] r@[i])@,
        (#[trigger] r@[j])@,
    ) by {
        assert(text_before(texts(r@)[i], texts(r@)[j]));
        lemma_less_at(encode_utf8(r@[i]@), encode_utf8(r@[j]@));
    }
}

/// Texts are compared, searched and put together character by character.
pub proof fn texts_are_handled_by_their_characters(
    a: &str,
    b: &str,
    c: char,
    equal: bool,
    begins: bool,
    ends: bool,
    inside: bool,
    has: bool,
    both: String,
)
    requires
        call_ensures(same, (a, b), equal),
        call_ensures(starts_with, (a, b), begins),
        call_ensures(ends_with, (a, b), ends),
        call_ensures(contains, (a, b), inside),
        call_ensures(has_char, (a, c), has),
        call_ensures(concat, (a, b), both),
    ensures
        equal <==> a@ == b@,
        begins <==> occurs_at(a@, b@, 0),
        ends <==> occurs_at(a@, b@, a@.len() - b@.len()),
        inside <==> exists|p: int| #[trigger] occurs_at(a@, b@, p),
        has <==> exists|i: int| 0 <= i < a@.len() && #[trigger] a@[i] == c,
        both@ == a@ + b@,
{
    if inside {
        let p = choose|p: int| stands_at(a@, b@, p);
        assert(occurs_at(a@, b@, p));
    }
    if exists|p: int| #[trigger] occurs_at(a@, b@, p) {
        let p = choose|p: int| #[trigger] occurs_at(a@, b@, p);
        assert(stands_at(a@, b@, p));
    }
}

/// A text that is cut at a separator and joined with it again is what it was, and no piece has the
/// separator.
pub proof fn pieces_join_to_the_text(s: &str, sep: char, r: Vec<String>, with: &str, whole: String)
    requires
        call_ensures(pieces, (s, sep), r),
        with@ == seq![sep],
        call_ensures(joined, (&r, with), whole),
    ensures
        whole@ == s@,
        r@.len() > 0,
        forall|i: int, j: int|
            0 <= i < r@.len() && 0 <= j < r@[i]@.len() ==> #[trigger] r@[i]@[j] != sep,
{
    crate::text::lemma_split_pieces(s@, sep);
    assert(texts(r@).len() == r@.len());
    assert forall|i: int, j: int| 0 <= i < r@.len() && 0 <= j < r@[i]@.len() implies #[trigger] r@[i]@[j]
        != sep by {
        assert(texts(r@)[i] == r@[i]@);
        assert(split(s@, sep)[i][j] != sep);
    }
}

proof fn lemma_inner_concat(a: Seq<Seq<char>>, b: Seq<Seq<char>>)
    ensures
        inner_pieces(a + b) == inner_pieces(a) + inner_pieces(b),
    decreases b.len(),
{
    if b.len() == 0 {
        assert(a + b =~= a);
        assert(inner_pieces(a) + inner_pieces(b) =~= inner_pieces(a));
    } else {
        assert((a + b).drop_last() =~= a + b.drop_last());
        lemma_inner_concat(a, b.drop_last());
        assert(inner_pieces(a + b) =~= inner_pieces(a) + inner_pieces(b));
    }
}

/// What a path names inside a directory: what stands before a slash, then what stands behind it. A
/// text without a slash is one name, unless it is empty or a dot.
pub proof fn path_names_its_steps(
    a: &str,
    b: &str,
    whole: &str,
    of_a: Vec<String>,
    of_b: Vec<String>,
    of_whole: Vec<String>,
)
    requires
        whole@ == a@ + seq!['/'] + b@,
        call_ensures(path_inner_components, (a,), of_a),
        call_ensures(path_inner_components, (b,), of_b),
        call_ensures(path_inner_components, (whole,), of_whole),
    ensures
        texts(of_whole@) == texts(of_a@) + texts(of_b@),
        !a@.contains('/') ==> texts(of_a@) == (if a@.len() == 0 || a@ == seq!['.'] {
            Seq::empty()
        } else {
            seq![a@]
        }),
{
    assert(a@ + seq!['/'] + b@ =~= a@.push('/') + b@);
    crate::text::lemma_split_at(a@, b@, '/');
    lemma_inner_concat(split(a@, '/'), split(b@, '/'));
    if !a@.contains('/') {
        lemma_single(a@, '/');
        let one = seq![a@];
        assert(one.drop_last() =~= Seq::empty());
        assert(inner_pieces(one.drop_last()) =~= Seq::empty());
        assert(Seq::<Seq<char>>::empty().push(a@) =~= seq![a@]);
        assert(inner_pieces(one) =~= texts(of_a@));
    }
}

/// The directory of a data file is all that its key names but the last.
pub proof fn data_file_lies_in_its_directory(key: &str, comps: Vec<String>, r: Place<String>)
    requires
        call_ensures(path_inner_components, (key,), comps),
        call_ensures(parent_of, (key,), r),
    ensures
        comps@.len() == 0 ==> r@ == Place::<Seq<char>>::DataRoot,
        comps@.len() > 0 ==> r@ == (Place::<Seq<char>>::ObjectDir {
            key: key@,
            depth: (comps@.len() - 1) as usize,
        }),
{
    assert(texts(comps@).len() == comps@.len());
}

/// A segment that names a directory below the one it stands in.
pub open spec fn leads_down(s: Seq<char>) -> bool {
    s.len() > 0 && s != "."@ && s != ".."@
}

/// A listing walks the directory that its prefix names up to the last slash. A prefix that could
/// lead elsewhere, or has no slash, has the whole tree walked.
pub proof fn listing_walks_the_directory_of_its_prefix(
    store: &CasStore,
    input: &ListObjectsInput,
    listing: (Browsing, Plan),
    prefix: &str,
    segs: Vec<String>,
    depth: usize,
    r: Place<String>,
)
    requires
        call_ensures(CasStore::list_objects, (store, input), listing),
        prefix@ == input.prefix@,
        call_ensures(pieces, (prefix, '/'), segs),
        call_ensures(depth_of, (prefix,), depth),
        call_ensures(prefix_walk_root, (prefix,), r),
    ensures
        depth > 0 && (forall|i: int| 0 <= i < segs@.len() - 1 ==> leads_down((#[trigger] segs@[i])@))
            ==> r@ == (Place::<Seq<char>>::KeyDir { key: prefix@, depth }),
        depth == 0 || !(forall|i: int|
            0 <= i < segs@.len() - 1 ==> leads_down((#[trigger] segs@[i])@)) ==> r@
            == Place::<Seq<char>>::Current,
        is_proper_bucket(input.bucket@) ==> listing.1@ == seq![
            StepView::Do {
                call: CallView::CheckDir { at: Place::Bucket },
                rule: must(Report::NoBucket),
            },
            StepView::Ask { question: QuestionView::Walk { at: r@, instead: Place::Current } },
        ],
        !is_proper_bucket(input.bucket@) ==> listing.1@ == seq![
            StepView::Fail { error: StorageError::PathTraversal },
        ],
{
    reveal_strlit(".");
    reveal_strlit("..");
    assert("."@ =~= seq!['.']);
    assert(".."@ =~= seq!['.', '.']);
    lemma_proper_bucket(input.bucket@);
    let views = split(prefix@, '/');
    assert(views == texts(segs@));
    assert forall|i: int| 0 <= i < segs@.len() implies leads_down((#[trigger] segs@[i])@)
        == is_plain_segment(views[i]) by {
        assert(views[i] == segs@[i]@);
    }
    if forall|i: int| 0 <= i < segs@.len() - 1 ==> leads_down((#[trigger] segs@[i])@) {
        assert forall|i: int| 0 <= i < views.len() - 1 implies is_plain_segment(#[trigger] views[i]) by {
            assert(leads_down(segs@[i]@));
        }
    } else {
        let i = choose|i: int| 0 <= i < segs@.len() - 1 && !leads_down((#[trigger] segs@[i])@);
        assert(!is_plain_segment(views[i]));
    }
}

} // verus!
