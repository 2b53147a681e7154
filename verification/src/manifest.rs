//! The manifest of an object: the unit that a commit replaces, and where it lies on disk.

use vstd::prelude::*;
use crate::metadata::{part_refs, ObjectMetadata, ObjectMetadataView, PartRef, PartRefView};
use crate::outside::{is_canonical_uuid, uuid_v4};
use crate::path::{
    components, join_path, lemma_join_all, lemma_join_last, lemma_named_pieces, path_components,
    path_join_all,
};
use crate::text::{
    concat, ends_with, has_char, join, joined, lemma_split_at, lemma_split_join, lemma_split_pieces, pieces, same,
    split, texts,
};
use crate::types::{copy_pairs, pairs};

verus! {

/// The directory of the live manifests of a bucket.
pub const CURRENT_DIR: &'static str = "current";

/// The directory of uploads in progress and staged manifests.
pub const ARRIVING_DIR: &'static str = "arriving";

/// The directory of the reclaim journals.
pub const DELETED_DIR: &'static str = "deleted";

/// What the file name of a live manifest ends with. No segment of a key may end with it, so a
/// manifest file is never a directory on the way to another one.
pub const MANIFEST_SUFFIX: &'static str = ".s3gw-live.meta";

/// One stored part of an object: a blob, named by its id.
#[derive(Debug)]
pub struct ManifestPartRef {
    pub part_number: u32,
    pub blob_id: String,
    pub size: u64,
    /// The MD5 of the blob in hexadecimal, without quotes.
    pub md5_hex: String,
}

#[verifier::ext_equal]
pub struct ManifestPartView {
    pub part_number: u32,
    pub blob_id: Seq<char>,
    pub size: u64,
    pub md5_hex: Seq<char>,
}

impl View for ManifestPartRef {
    type V = ManifestPartView;

    open spec fn view(&self) -> ManifestPartView {
        ManifestPartView {
            part_number: self.part_number,
            blob_id: self.blob_id@,
            size: self.size,
            md5_hex: self.md5_hex@,
        }
    }
}

/// One version of an object.
#[derive(Debug)]
pub struct Manifest {
    pub key: String,
    pub content_type: String,
    /// The sum of the sizes of the parts.
    pub content_length: u64,
    /// With its quotes: the MD5 of a single part, or the composite tag of several.
    pub etag: String,
    /// Unix seconds.
    pub last_modified: i64,
    /// Unix seconds.
    pub created: i64,
    pub user_metadata: Vec<(String, String)>,
    pub content_disposition: String,
    pub content_encoding: String,
    pub cache_control: String,
    /// The parts in the order in which they are read.
    pub parts: Vec<ManifestPartRef>,
    /// Drawn anew for each version. A journal names the version it waits for by it.
    pub commit_nonce: String,
}

#[verifier::ext_equal]
pub struct ManifestView {
    pub key: Seq<char>,
    pub content_type: Seq<char>,
    pub content_length: u64,
    pub etag: Seq<char>,
    pub last_modified: i64,
    pub created: i64,
    pub user_metadata: Seq<(Seq<char>, Seq<char>)>,
    pub content_disposition: Seq<char>,
    pub content_encoding: Seq<char>,
    pub cache_control: Seq<char>,
    pub parts: Seq<ManifestPartView>,
    pub commit_nonce: Seq<char>,
}

/// The views of a list of parts.
pub open spec fn manifest_parts(v: Seq<ManifestPartRef>) -> Seq<ManifestPartView> {
    Seq::new(v.len(), |i: int| v[i]@)
}

/// The blob ids of a list of parts.
pub open spec fn part_blobs(parts: Seq<ManifestPartView>) -> Seq<Seq<char>> {
    Seq::new(parts.len(), |i: int| parts[i].blob_id)
}

impl View for Manifest {
    type V = ManifestView;

    open spec fn view(&self) -> ManifestView {
        ManifestView {
            key: self.key@,
            content_type: self.content_type@,
            content_length: self.content_length,
            etag: self.etag@,
            last_modified: self.last_modified,
            created: self.created,
            user_metadata: pairs(self.user_metadata@),
            content_disposition: self.content_disposition@,
            content_encoding: self.content_encoding@,
            cache_control: self.cache_control@,
            parts: manifest_parts(self.parts@),
            commit_nonce: self.commit_nonce@,
        }
    }
}

impl ManifestView {
    /// The blobs that this version owns.
    pub open spec fn blobs(self) -> Seq<Seq<char>> {
        part_blobs(self.parts)
    }

    /// The headers of this version. Several parts are listed with their blob ids as paths.
    pub open spec fn headers(self) -> ObjectMetadataView {
        ObjectMetadataView {
            content_type: self.content_type,
            content_length: self.content_length as i64,
            etag: self.etag,
            last_modified: self.last_modified,
            user_metadata: self.user_metadata,
            content_disposition: self.content_disposition,
            content_encoding: self.content_encoding,
            cache_control: self.cache_control,
            multipart: if self.parts.len() > 1 {
                Some(
                    Seq::new(
                        self.parts.len(),
                        |i: int|
                            PartRefView {
                                part_number: self.parts[i].part_number as i32,
                                path: self.parts[i].blob_id,
                                size: self.parts[i].size,
                                md5_hex: self.parts[i].md5_hex,
                            },
                    ),
                )
            } else {
                None
            },
        }
    }
}

impl Manifest {
    /// A fresh nonce.
    pub fn new_nonce() -> (r: String)
        ensures
            is_canonical_uuid(r@),
    {
        uuid_v4()
    }

    /// The blobs that this version owns, in the order of its parts.
    pub fn blob_ids(&self) -> (r: Vec<String>)
        ensures
            texts(r@) == self@.blobs(),
    {
        let mut out: Vec<String> = Vec::new();
        let mut i: usize = 0;
        while i < self.parts.len()
            invariant
                i <= self.parts@.len(),
                out@.len() == i,
                forall|j: int| 0 <= j < i ==> (#[trigger] out@[j])@ == self.parts@[j].blob_id@,
            decreases self.parts@.len() - i,
        {
            out.push(self.parts[i].blob_id.clone());
            i = i + 1;
        }
        assert(texts(out@) =~= self@.blobs());
        out
    }

    /// The headers of this version.
    pub fn to_object_metadata(&self) -> (r: ObjectMetadata)
        ensures
            r@ == self@.headers(),
    {
        let multipart = if self.parts.len() > 1 {
            let mut out: Vec<PartRef> = Vec::new();
            let mut i: usize = 0;
            while i < self.parts.len()
                invariant
                    i <= self.parts@.len(),
                    self.parts@.len() > 1,
                    out@.len() == i,
                    forall|j: int|
                        0 <= j < i ==> (#[trigger] out@[j])@ == (self@.headers().multipart->0)[j],
                decreases self.parts@.len() - i,
            {
                let p = &self.parts[i];
                out.push(
                    PartRef {
                        part_number: p.part_number as i32,
                        path: p.blob_id.clone(),
                        size: p.size,
                        md5_hex: p.md5_hex.clone(),
                    },
                );
                i = i + 1;
            }
            assert(part_refs(out@) =~= self@.headers().multipart->0);
            Some(out)
        } else {
            None
        };
        ObjectMetadata {
            content_type: self.content_type.clone(),
            content_length: self.content_length as i64,
            etag: self.etag.clone(),
            last_modified: self.last_modified,
            user_metadata: copy_pairs(&self.user_metadata),
            content_disposition: self.content_disposition.clone(),
            content_encoding: self.content_encoding.clone(),
            cache_control: self.cache_control.clone(),
            multipart,
        }
    }
}

/// The path of a key below the manifest tree: its segments pushed one after the other.
pub open spec fn key_relpath(key: Seq<char>) -> Seq<char> {
    path_join_all(Seq::empty(), split(key, '/'))
}

/// The components of a manifest's path below the manifest tree: those of the key, the last one
/// with the suffix.
pub open spec fn manifest_components(key: Seq<char>) -> Seq<Seq<char>> {
    let comps = components(key_relpath(key));
    if comps.len() == 0 {
        seq![MANIFEST_SUFFIX@]
    } else {
        comps.update(comps.len() - 1, comps.last() + MANIFEST_SUFFIX@)
    }
}

/// Where the manifest of a key lies.
pub open spec fn manifest_location(current_root: Seq<char>, key: Seq<char>) -> Seq<char> {
    path_join_all(current_root, manifest_components(key))
}

/// The key whose manifest lies at `rel` below the manifest tree, if the name is a manifest's.
pub open spec fn decoded_key(rel: Seq<char>) -> Option<Seq<char>> {
    let comps = components(rel);
    if comps.len() > 0 && MANIFEST_SUFFIX@.is_suffix_of(comps.last()) {
        let stem = comps.last().take(comps.last().len() - MANIFEST_SUFFIX@.len());
        Some(join(comps.update(comps.len() - 1, stem), '/'))
    } else {
        None
    }
}

/// A segment that a key may hold.
pub open spec fn is_key_segment(s: Seq<char>) -> bool {
    s.len() > 0 && s != seq!['.'] && s != seq!['.', '.'] && !MANIFEST_SUFFIX@.is_suffix_of(s)
}

/// The keys that the store accepts.
pub open spec fn is_object_key(key: Seq<char>) -> bool {
    !key.contains('\0') && forall|i: int|
        0 <= i < split(key, '/').len() ==> is_key_segment(#[trigger] split(key, '/')[i])
}

/// The path of a key below the manifest tree.
pub fn escape_key_to_relpath(key: &str) -> (r: String)
    ensures
        r@ == key_relpath(key@),
{
    let segs = pieces(key, '/');
    let ghost views = texts(segs@);
    let mut out: String = String::new();
    let mut i: usize = 0;
    assert(views.take(0) =~= Seq::empty());
    while i < segs.len()
        invariant
            i <= segs@.len(),
            views == texts(segs@),
            out@ == path_join_all(Seq::empty(), views.take(i as int)),
        decreases segs@.len() - i,
    {
        proof {
            assert(views.take(i + 1).drop_last() =~= views.take(i as int));
        }
        out = join_path(out.as_str(), segs[i].as_str());
        i = i + 1;
    }
    assert(views.take(i as int) =~= views);
    out
}

/// Where the manifest of a key lies below `current_root`.
pub fn manifest_path(current_root: &str, key: &str) -> (r: String)
    ensures
        r@ == manifest_location(current_root@, key@),
{
    let rel = escape_key_to_relpath(key);
    let comps = path_components(rel.as_str());
    let ghost all = manifest_components(key@);
    if comps.len() == 0 {
        let out = join_path(current_root, MANIFEST_SUFFIX);
        proof {
            assert(texts(comps@).len() == 0);
            assert(all.drop_last() =~= Seq::empty());
            assert(path_join_all(current_root@, all.drop_last()) == current_root@);
        }
        return out;
    }
    let mut out: String = current_root.to_owned();
    let mut i: usize = 0;
    proof {
        assert(texts(comps@).len() == comps@.len());
        assert(all.take(0) =~= Seq::empty());
    }
    while i < comps.len()
        invariant
            i <= comps@.len(),
            comps@.len() > 0,
            texts(comps@) == components(key_relpath(key@)),
            all == manifest_components(key@),
            all.len() == comps@.len(),
            out@ == path_join_all(current_root@, all.take(i as int)),
        decreases comps@.len() - i,
    {
        proof {
            assert(all.take(i + 1).drop_last() =~= all.take(i as int));
            assert(all.take(i + 1).last() == all[i as int]);
            assert(texts(comps@)[i as int] == comps@[i as int]@);
        }
        if i + 1 == comps.len() {
            let leaf = concat(comps[i].as_str(), MANIFEST_SUFFIX);
            out = join_path(out.as_str(), leaf.as_str());
        } else {
            out = join_path(out.as_str(), comps[i].as_str());
        }
        i = i + 1;
    }
    assert(all.take(i as int) =~= all);
    out
}

/// The key whose manifest lies at `rel` below the manifest tree.
pub fn decode_relpath_to_key(rel: &str) -> (r: Option<String>)
    ensures
        match r {
            Some(key) => decoded_key(rel@) == Some(key@),
            None => decoded_key(rel@) is None,
        },
{
    let mut comps = path_components(rel);
    let ghost views = texts(comps@);
    if comps.len() == 0 {
        return None;
    }
    let last: usize = comps.len() - 1;
    assert(views[last as int] == comps@[last as int]@);
    if !ends_with(comps[last].as_str(), MANIFEST_SUFFIX) {
        return None;
    }
    let whole: usize = comps[last].as_str().unicode_len();
    let tail: usize = MANIFEST_SUFFIX.unicode_len();
    let stem: String = comps[last].as_str().substring_char(0, whole - tail).to_owned();
    proof {
        assert(stem@ =~= views.last().take(whole - tail));
    }
    comps.set(last, stem);
    proof {
        reveal_strlit("/");
        assert("/"@ =~= seq!['/']);
        assert(texts(comps@) =~= views.update(last as int, views.last().take(whole - tail)));
    }
    Some(joined(&comps, "/"))
}

/// Whether a segment may stand in a key.
fn check_segment(s: &String) -> (r: bool)
    ensures
        r == is_key_segment(s@),
{
    proof {
        reveal_strlit(".");
        reveal_strlit("..");
        assert("."@ =~= seq!['.']);
        assert(".."@ =~= seq!['.', '.']);
    }
    !s.as_str().is_empty() && !same(s.as_str(), ".") && !same(s.as_str(), "..") && !ends_with(
        s.as_str(),
        MANIFEST_SUFFIX,
    )
}

/// Whether the store accepts the key.
pub fn is_valid_key(key: &str) -> (r: bool)
    ensures
        r == is_object_key(key@),
{
    if has_char(key, '\0') {
        return false;
    }
    let segs = pieces(key, '/');
    let mut i: usize = 0;
    while i < segs.len()
        invariant
            i <= segs@.len(),
            texts(segs@) == split(key@, '/'),
            forall|j: int| 0 <= j < i ==> is_key_segment(#[trigger] split(key@, '/')[j]),
        decreases segs@.len() - i,
    {
        assert(texts(segs@)[i as int] == segs@[i as int]@);
        if !check_segment(&segs[i]) {
            return false;
        }
        i = i + 1;
    }
    assert(texts(segs@).len() == segs@.len());
    true
}

/// Pushing segments onto an empty path writes them with `/` between them.
proof fn lemma_relpath(segs: Seq<Seq<char>>)
    requires
        segs.len() > 0,
        forall|i: int| 0 <= i < segs.len() ==> (#[trigger] segs[i]).len() > 0,
        forall|i: int, j: int|
            0 <= i < segs.len() && 0 <= j < segs[i].len() ==> segs[i][j] != '/',
    ensures
        path_join_all(Seq::empty(), segs) == join(segs, '/'),
    decreases segs.len(),
{
    let front = segs.drop_last();
    let last = segs.last();
    assert(last == segs[segs.len() - 1]);
    if segs.len() == 1 {
        assert(path_join_all(Seq::empty(), front) == Seq::<char>::empty());
        assert(Seq::<char>::empty() + last =~= last);
    } else {
        assert forall|i: int| 0 <= i < front.len() implies (#[trigger] front[i]).len() > 0 by {
            assert(front[i] == segs[i]);
        }
        lemma_relpath(front);
        lemma_join_last(front);
    }
}

/// What an accepted key is made of, and the components of its manifest's path.
pub proof fn lemma_object_key(key: Seq<char>)
    requires
        is_object_key(key),
    ensures
        key.len() > 0,
        key[0] != '/',
        join(split(key, '/'), '/') == key,
        key_relpath(key) == key,
        components(key_relpath(key)) == split(key, '/'),
        manifest_components(key) == split(key, '/').update(
            split(key, '/').len() - 1,
            split(key, '/').last() + MANIFEST_SUFFIX@,
        ),
        manifest_components(key).len() == split(key, '/').len(),
        forall|i: int|
            0 <= i < manifest_components(key).len() ==> (#[trigger] manifest_components(
                key,
            )[i]).len() > 0,
        forall|i: int, j: int|
            0 <= i < manifest_components(key).len() && 0 <= j < manifest_components(key)[i].len()
                ==> manifest_components(key)[i][j] != '/',
{
    let segs = split(key, '/');
    lemma_split_pieces(key, '/');
    assert forall|i: int| 0 <= i < segs.len() implies (#[trigger] segs[i]).len() > 0 && segs[i]
        != seq!['.'] by {
        assert(is_key_segment(split(key, '/')[i]));
    }
    lemma_relpath(segs);
    lemma_named_pieces(segs);
    lemma_first_char(segs);
    let comps = manifest_components(key);
    reveal_strlit(".s3gw-live.meta");
    assert forall|i: int, j: int|
        0 <= i < comps.len() && 0 <= j < comps[i].len() implies comps[i][j] != '/' by {
        if i == segs.len() - 1 {
            if j < segs[i].len() {
                assert(comps[i][j] == segs[i][j]);
            } else {
                assert(comps[i][j] == MANIFEST_SUFFIX@[j - segs[i].len()]);
            }
        }
    }
}

proof fn lemma_first_char(segs: Seq<Seq<char>>)
    requires
        segs.len() > 0,
        forall|i: int| 0 <= i < segs.len() ==> (#[trigger] segs[i]).len() > 0,
        forall|i: int, j: int|
            0 <= i < segs.len() && 0 <= j < segs[i].len() ==> segs[i][j] != '/',
    ensures
        join(segs, '/').len() > 0,
        join(segs, '/')[0] != '/',
    decreases segs.len(),
{
    if segs.len() > 1 {
        let front = segs.drop_last();
        assert forall|i: int| 0 <= i < front.len() implies (#[trigger] front[i]).len() > 0 by {
            assert(front[i] == segs[i]);
        }
        lemma_first_char(front);
        assert(join(segs, '/')[0] == join(front, '/')[0]);
    }
}

/// A key is read back from where its manifest lies.
pub proof fn manifest_path_decodes_to_its_key(key: Seq<char>)
    requires
        is_object_key(key),
    ensures
        decoded_key(join(manifest_components(key), '/')) == Some(key),
{
    lemma_object_key(key);
    let segs = split(key, '/');
    let comps = manifest_components(key);
    lemma_split_join(comps, '/');
    lemma_first_char(comps);
    reveal_strlit(".s3gw-live.meta");
    assert forall|i: int| 0 <= i < comps.len() implies (#[trigger] comps[i]).len() > 0 && comps[i]
        != seq!['.'] by {
        if i < segs.len() - 1 {
            assert(is_key_segment(split(key, '/')[i]));
        } else {
            assert(comps[i].len() > 1);
            assert(seq!['.'].len() == 1);
        }
    }
    lemma_named_pieces(comps);
    let last = comps.last();
    let n = last.len() - MANIFEST_SUFFIX@.len();
    assert(last == segs.last() + MANIFEST_SUFFIX@);
    assert(last.subrange(n, last.len() as int) =~= MANIFEST_SUFFIX@);
    assert(last.take(n) =~= segs.last());
    assert(comps.update(comps.len() - 1, last.take(n)) =~= segs);
}

/// Below a directory the manifest's path is the directory, a separator, and the components.
pub proof fn manifest_path_stays_below_its_root(root: Seq<char>, key: Seq<char>)
    requires
        is_object_key(key),
        root.len() > 0,
        root.last() != '/',
    ensures
        manifest_location(root, key) == root.push('/') + join(manifest_components(key), '/'),
        forall|i: int|
            0 <= i < manifest_components(key).len() ==> {
                let c = #[trigger] manifest_components(key)[i];
                c.len() > 0 && c != seq!['.'] && c != seq!['.', '.'] && !c.contains('/')
            },
{
    lemma_object_key(key);
    let segs = split(key, '/');
    let comps = manifest_components(key);
    lemma_join_all(root, comps);
    reveal_strlit(".s3gw-live.meta");
    assert forall|i: int| 0 <= i < comps.len() implies {
        let c = #[trigger] comps[i];
        c.len() > 0 && c != seq!['.'] && c != seq!['.', '.'] && !c.contains('/')
    } by {
        let c = comps[i];
        if i < segs.len() - 1 {
            assert(is_key_segment(split(key, '/')[i]));
        } else {
            assert(c.len() > 2);
            assert(seq!['.'].len() == 1);
            assert(seq!['.', '.'].len() == 2);
        }
        if c.contains('/') {
            let j = choose|j: int| 0 <= j < c.len() && c[j] == '/';
            assert(comps[i][j] != '/');
        }
    }
}

/// Two accepted keys with the same manifest path are the same key.
pub proof fn manifest_paths_are_distinct(root: Seq<char>, a: Seq<char>, b: Seq<char>)
    requires
        is_object_key(a),
        is_object_key(b),
        root.len() > 0,
        root.last() != '/',
        manifest_location(root, a) == manifest_location(root, b),
    ensures
        a == b,
{
    manifest_path_stays_below_its_root(root, a);
    manifest_path_stays_below_its_root(root, b);
    let ja = join(manifest_components(a), '/');
    let jb = join(manifest_components(b), '/');
    assert(ja =~= (root.push('/') + ja).skip(root.len() as int + 1));
    assert(jb =~= (root.push('/') + jb).skip(root.len() as int + 1));
    manifest_path_decodes_to_its_key(a);
    manifest_path_decodes_to_its_key(b);
}

/// The manifest of one accepted key is never a directory on the way to that of another.
pub proof fn manifest_is_never_an_ancestor(root: Seq<char>, a: Seq<char>, b: Seq<char>)
    requires
        is_object_key(a),
        is_object_key(b),
        root.len() > 0,
        root.last() != '/',
    ensures
        !manifest_location(root, a).push('/').is_prefix_of(manifest_location(root, b)),
{
    manifest_path_stays_below_its_root(root, a);
    manifest_path_stays_below_its_root(root, b);
    lemma_object_key(a);
    lemma_object_key(b);
    let ca = manifest_components(a);
    let cb = manifest_components(b);
    let ja = join(ca, '/');
    let jb = join(cb, '/');
    let la = manifest_location(root, a);
    let lb = manifest_location(root, b);
    if la.push('/').is_prefix_of(lb) {
        let n = root.len() as int + 1;
        let rest = jb.skip(ja.len() as int + 1);
        assert(jb =~= ja.push('/') + rest) by {
            assert(lb.subrange(0, la.len() as int + 1) == la.push('/'));
            assert forall|i: int| 0 <= i < ja.len() + 1 implies jb[i] == ja.push('/')[i] by {
                assert(lb[n + i] == jb[i]);
                assert(lb.subrange(0, la.len() as int + 1)[n + i] == la.push('/')[n + i]);
            }
        }
        lemma_split_at(ja, rest, '/');
        lemma_split_join(ca, '/');
        lemma_split_join(cb, '/');
        lemma_split_pieces(rest, '/');
        let i = ca.len() - 1;
        assert(cb[i] == ca[i]);
        let seg = split(b, '/')[i];
        assert(cb[i] == seg);
        assert(is_key_segment(split(b, '/')[i]));
        let whole = split(a, '/').last() + MANIFEST_SUFFIX@;
        assert(whole.subrange(whole.len() - MANIFEST_SUFFIX@.len(), whole.len() as int)
            =~= MANIFEST_SUFFIX@);
    }
}

} // verus!
