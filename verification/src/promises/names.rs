//! Names: which keys and buckets are accepted, and where things lie.

use vstd::prelude::*;
use vstd::utf8::{
    encode_utf8, encode_utf8_valid_utf8, is_ascii_chars, is_ascii_chars_encode_utf8,
};
use crate::blob::{
    blob_components, blob_path, blob_path_stays_below_its_bucket, fsync_blob_dir, is_valid_blob_id,
    lemma_ascii_front, two_bytes,
};
use crate::cas::objects::depth_of;
use crate::cas::store::{validate_bucket_component, validate_object_path};
use crate::manifest::{
    decode_relpath_to_key, decoded_key, escape_key_to_relpath, is_key_segment, is_object_key,
    is_valid_key, lemma_object_key, manifest_components, manifest_path, manifest_path_decodes_to_its_key,
    manifest_path_stays_below_its_root,
};
use crate::numbers::{digits_value, is_digit};
use crate::path::{components, join_path, lemma_join_all, named_pieces, within};
use crate::promises::listing::occurs_at;
use crate::text::{
    has_text, join, lemma_split_at, lemma_split_join, lemma_split_pieces, split, stands_at, texts,
};
use crate::types::{
    is_bucket_name, is_dotted_address, is_ipv4, is_name_char, is_octet, is_valid_bucket_name,
    validate_bucket_name, StorageError,
};

verus! {

/// What stands between two separators, or between one and an end of the text.
pub open spec fn is_segment(s: Seq<char>, sep: char, i: int, j: int) -> bool {
    &&& 0 <= i <= j <= s.len()
    &&& i == 0 || s[i - 1] == sep
    &&& j == s.len() || s[j] == sep
    &&& forall|k: int| i <= k < j ==> #[trigger] s[k] != sep
}

pub proof fn lemma_single(s: Seq<char>, sep: char)
    requires
        forall|k: int| 0 <= k < s.len() ==> #[trigger] s[k] != sep,
    ensures
        split(s, sep) == seq![s],
{
    lemma_split_join(seq![s], sep);
}

/// A segment of a text is one of its pieces.
pub proof fn lemma_segment_is_piece(s: Seq<char>, sep: char, i: int, j: int) -> (k: int)
    requires
        is_segment(s, sep, i, j),
    ensures
        0 <= k < split(s, sep).len(),
        split(s, sep)[k] == s.subrange(i, j),
{
    let b = s.skip(i);
    let t = s.subrange(i, j);
    assert forall|k: int| 0 <= k < t.len() implies #[trigger] t[k] != sep by {
        assert(s[i + k] != sep);
    }
    lemma_single(t, sep);
    lemma_split_pieces(b, sep);
    assert(split(b, sep)[0] == t) by {
        if j == s.len() {
            assert(b =~= t);
        } else {
            let rest = s.skip(j + 1);
            assert(b =~= t.push(sep) + rest);
            lemma_split_at(t, rest, sep);
        }
    }
    if i == 0 {
        assert(b =~= s);
        0
    } else {
        let a = s.take(i - 1);
        assert(s =~= a.push(sep) + b);
        lemma_split_at(a, b, sep);
        lemma_split_pieces(a, sep);
        assert(split(s, sep)[split(a, sep).len() as int] == split(b, sep)[0]);
        split(a, sep).len() as int
    }
}

/// A piece of a text is one of its segments.
pub proof fn lemma_piece_is_segment(s: Seq<char>, sep: char, k: int) -> (r: (int, int))
    requires
        0 <= k < split(s, sep).len(),
    ensures
        is_segment(s, sep, r.0, r.1),
        s.subrange(r.0, r.1) == split(s, sep)[k],
        k == split(s, sep).len() - 1 <==> r.1 == s.len(),
    decreases s.len(),
{
    let n = s.len() as int;
    if n == 0 {
        assert(s.subrange(0, 0) =~= split(s, sep)[k]);
        (0, 0)
    } else {
        let front = s.drop_last();
        let early = split(front, sep);
        let all = split(s, sep);
        lemma_split_pieces(front, sep);
        if s.last() == sep {
            assert(all == early.push(Seq::empty()));
            if k == early.len() {
                assert(s.subrange(n, n) =~= Seq::empty());
                (n, n)
            } else {
                let (i, j) = lemma_piece_is_segment(front, sep, k);
                lemma_segment_grows(s, sep, i, j);
                (i, j)
            }
        } else {
            assert(all == early.update(early.len() - 1, early.last().push(s.last())));
            let (i, j) = lemma_piece_is_segment(front, sep, k);
            if k == early.len() - 1 {
                assert(s.subrange(i, n) =~= front.subrange(i, j).push(s.last()));
                assert forall|q: int| i <= q < n implies #[trigger] s[q] != sep by {
                    if q < n - 1 {
                        assert(front[q] == s[q]);
                    }
                }
                assert(i == 0 || s[i - 1] == front[i - 1]);
                (i, n)
            } else {
                lemma_segment_grows(s, sep, i, j);
                (i, j)
            }
        }
    }
}

/// A segment stays one where more text follows behind its separator.
proof fn lemma_segment_grows(s: Seq<char>, sep: char, i: int, j: int)
    requires
        s.len() > 0,
        is_segment(s.drop_last(), sep, i, j),
        j < s.len() - 1 || s.last() == sep,
    ensures
        is_segment(s, sep, i, j),
        s.subrange(i, j) == s.drop_last().subrange(i, j),
{
    let front = s.drop_last();
    assert(s.subrange(i, j) =~= front.subrange(i, j));
    assert(i == 0 || s[i - 1] == front[i - 1]);
    assert forall|q: int| i <= q < j implies #[trigger] s[q] != sep by {
        assert(front[q] == s[q]);
    }
    if j < front.len() {
        assert(s[j] == front[j]);
    }
}

/// A segment that a key may have.
pub open spec fn is_proper_segment(t: Seq<char>) -> bool {
    &&& t.len() > 0
    &&& t != seq!['.']
    &&& t != seq!['.', '.']
    &&& !".s3gw-live.meta"@.is_suffix_of(t)
}

/// A key is accepted exactly where it has no NUL, and every segment between its slashes has a
/// character, is no dot entry, and does not end like the name of a manifest.
pub open spec fn is_proper_key(key: Seq<char>) -> bool {
    &&& forall|i: int| 0 <= i < key.len() ==> #[trigger] key[i] != '\0'
    &&& forall|i: int, j: int|
        #[trigger] is_segment(key, '/', i, j) ==> is_proper_segment(key.subrange(i, j))
}

pub proof fn lemma_proper_key(key: Seq<char>)
    ensures
        is_object_key(key) <==> is_proper_key(key),
{
    if is_object_key(key) {
        assert forall|i: int, j: int| #[trigger] is_segment(key, '/', i, j) implies is_proper_segment(
            key.subrange(i, j),
        ) by {
            let k = lemma_segment_is_piece(key, '/', i, j);
            assert(is_key_segment(split(key, '/')[k]));
        }
        assert forall|i: int| 0 <= i < key.len() implies #[trigger] key[i] != '\0' by {
            assert(key.contains(key[i]));
        }
    }
    if is_proper_key(key) {
        assert forall|k: int| 0 <= k < split(key, '/').len() implies is_key_segment(
            #[trigger] split(key, '/')[k],
        ) by {
            let (i, j) = lemma_piece_is_segment(key, '/', k);
            assert(is_segment(key, '/', i, j));
        }
    }
}

/// Which keys are accepted.
pub proof fn key_is_accepted_by_its_segments(key: &str, r: bool)
    requires
        call_ensures(is_valid_key, (key,), r),
    ensures
        r <==> is_proper_key(key@),
{
    lemma_proper_key(key@);
}

/// One number of a dotted address: up to three digits, at most 255.
pub open spec fn is_small_number(s: Seq<char>) -> bool {
    let d = |i: int| s[i] as int - '0' as int;
    &&& forall|i: int| 0 <= i < s.len() ==> '0' <= #[trigger] s[i] && s[i] <= '9'
    &&& s.len() == 1 || (s.len() == 2) || (s.len() == 3 && d(0) * 100 + d(1) * 10 + d(2) <= 255)
}

/// Four small numbers with a dot between each two.
pub open spec fn is_address(s: Seq<char>) -> bool {
    exists|a: int, b: int, c: int| #[trigger] is_address_at(s, a, b, c)
}

pub open spec fn is_address_at(s: Seq<char>, a: int, b: int, c: int) -> bool {
    &&& 0 <= a < b < c < s.len()
    &&& s[a] == '.' && s[b] == '.' && s[c] == '.'
    &&& is_small_number(s.subrange(0, a))
    &&& is_small_number(s.subrange(a + 1, b))
    &&& is_small_number(s.subrange(b + 1, c))
    &&& is_small_number(s.subrange(c + 1, s.len() as int))
}

proof fn lemma_small_number(s: Seq<char>)
    ensures
        is_octet(s) <==> is_small_number(s),
{
    reveal_with_fuel(digits_value, 4);
    if is_octet(s) || is_small_number(s) {
        assert forall|i: int| 0 <= i < s.len() implies ('0' <= #[trigger] s[i] && s[i] <= '9') == is_digit(
            s[i],
        ) by {}
        if s.len() == 1 {
            assert(s.drop_last().len() == 0);
        } else if s.len() == 2 {
            assert(s.drop_last().last() == s[0]);
            assert(s.drop_last().drop_last().len() == 0);
        } else if s.len() == 3 {
            assert(s.drop_last().last() == s[1]);
            assert(s.drop_last().drop_last().last() == s[0]);
            assert(s.drop_last().drop_last().drop_last().len() == 0);
        }
    }
}

proof fn lemma_no_dot_inside(s: Seq<char>)
    requires
        is_small_number(s),
    ensures
        split(s, '.') == seq![s],
{
    assert forall|k: int| 0 <= k < s.len() implies #[trigger] s[k] != '.' by {}
    lemma_single(s, '.');
}

proof fn lemma_four_joined(p: Seq<Seq<char>>)
    requires
        p.len() == 4,
    ensures
        join(p, '.') == ((p[0].push('.') + p[1]).push('.') + p[2]).push('.') + p[3],
{
    reveal_with_fuel(join, 4);
    assert(p.drop_last().drop_last().drop_last().len() == 1);
    assert(p.drop_last().last() == p[2]);
    assert(p.drop_last().drop_last().last() == p[1]);
    assert(p.drop_last().drop_last().drop_last()[0] == p[0]);
}

proof fn lemma_address_is_found(s: Seq<char>)
    requires
        is_dotted_address(s),
    ensures
        is_address(s),
{
    let p = split(s, '.');
    lemma_split_pieces(s, '.');
    lemma_four_joined(p);
    let p0 = p[0];
    let p1 = p[1];
    let p2 = p[2];
    let p3 = p[3];
    assert(is_octet(p[0]) && is_octet(p[1]) && is_octet(p[2]) && is_octet(p[3]));
    lemma_small_number(p0);
    lemma_small_number(p1);
    lemma_small_number(p2);
    lemma_small_number(p3);
    lemma_four_cut(p0, p1, p2, p3, s);
}

proof fn lemma_four_cut(
    p0: Seq<char>,
    p1: Seq<char>,
    p2: Seq<char>,
    p3: Seq<char>,
    s: Seq<char>,
)
    requires
        s == ((p0.push('.') + p1).push('.') + p2).push('.') + p3,
        is_small_number(p0),
        is_small_number(p1),
        is_small_number(p2),
        is_small_number(p3),
    ensures
        is_address(s),
{
    let a = p0.len() as int;
    let b = a + 1 + p1.len();
    let c = b + 1 + p2.len();
    assert(s.subrange(0, a) =~= p0);
    assert(s.subrange(a + 1, b) =~= p1);
    assert(s.subrange(b + 1, c) =~= p2);
    assert(s.subrange(c + 1, s.len() as int) =~= p3);
    assert(is_address_at(s, a, b, c));
}

proof fn lemma_address_is_dotted(s: Seq<char>, a: int, b: int, c: int)
    requires
        is_address_at(s, a, b, c),
    ensures
        is_dotted_address(s),
{
    let p0 = s.subrange(0, a);
    let p1 = s.subrange(a + 1, b);
    let p2 = s.subrange(b + 1, c);
    let p3 = s.subrange(c + 1, s.len() as int);
    lemma_no_dot_inside(p0);
    lemma_no_dot_inside(p1);
    lemma_no_dot_inside(p2);
    lemma_no_dot_inside(p3);
    lemma_split_at(p2, p3, '.');
    lemma_split_at(p1, p2.push('.') + p3, '.');
    lemma_split_at(p0, p1.push('.') + (p2.push('.') + p3), '.');
    assert(s =~= p0.push('.') + (p1.push('.') + (p2.push('.') + p3)));
    assert(split(s, '.') =~= seq![p0, p1, p2, p3]);
    lemma_small_number(p0);
    lemma_small_number(p1);
    lemma_small_number(p2);
    lemma_small_number(p3);
}

proof fn lemma_address(s: Seq<char>)
    ensures
        is_dotted_address(s) <==> is_address(s),
{
    if is_dotted_address(s) {
        lemma_address_is_found(s);
    }
    if is_address(s) {
        let (a, b, c) = choose|a: int, b: int, c: int| #[trigger] is_address_at(s, a, b, c);
        lemma_address_is_dotted(s, a, b, c);
    }
}

pub open spec fn is_lower_or_digit(c: char) -> bool {
    ('a' <= c && c <= 'z') || ('0' <= c && c <= '9')
}

/// A bucket name: 3 to 63 lower-case letters, digits, dots and hyphens, with a letter or a digit at
/// either end and no two dots in a row. It does not begin with `xn--`, does not end with
/// `-s3alias`, and is no address.
pub open spec fn is_proper_bucket(s: Seq<char>) -> bool {
    &&& 3 <= s.len() <= 63
    &&& forall|i: int|
        0 <= i < s.len() ==> is_lower_or_digit(#[trigger] s[i]) || s[i] == '.' || s[i] == '-'
    &&& is_lower_or_digit(s[0])
    &&& is_lower_or_digit(s[s.len() - 1])
    &&& forall|p: int| !#[trigger] occurs_at(s, ".."@, p)
    &&& !seq!['x', 'n', '-', '-'].is_prefix_of(s)
    &&& !seq!['-', 's', '3', 'a', 'l', 'i', 'a', 's'].is_suffix_of(s)
    &&& !is_address(s)
}

/// Which bucket names are accepted.
pub proof fn bucket_name_is_accepted_by_its_rules(
    name: &str,
    valid: bool,
    address: bool,
    named: Result<(), StorageError>,
    component: Result<(), StorageError>,
    plain: Result<(), crate::filesystem::store::StorageError>,
)
    requires
        call_ensures(is_valid_bucket_name, (name,), valid),
        call_ensures(is_ipv4, (name,), address),
        call_ensures(validate_bucket_name, (name,), named),
        call_ensures(validate_bucket_component, (name,), component),
        call_ensures(crate::filesystem::store::validate_bucket_name, (name,), plain),
    ensures
        valid <==> is_proper_bucket(name@),
        address <==> is_address(name@),
        named == (if is_proper_bucket(name@) {
            Ok::<(), StorageError>(())
        } else {
            Err(StorageError::InvalidBucket)
        }),
        component == (if is_proper_bucket(name@) {
            Ok::<(), StorageError>(())
        } else {
            Err(StorageError::PathTraversal)
        }),
        plain == (if is_proper_bucket(name@) {
            Ok::<(), crate::filesystem::store::StorageError>(())
        } else {
            Err(crate::filesystem::store::StorageError::InvalidBucket)
        }),
{
    lemma_proper_bucket(name@);
    lemma_address(name@);
}

pub proof fn lemma_proper_bucket(s: Seq<char>)
    ensures
        is_bucket_name(s) <==> is_proper_bucket(s),
{
    lemma_address(s);
    reveal_strlit("xn--");
    reveal_strlit("-s3alias");
    assert("xn--"@ =~= seq!['x', 'n', '-', '-']);
    assert("-s3alias"@ =~= seq!['-', 's', '3', 'a', 'l', 'i', 'a', 's']);
    reveal_strlit("..");
    let dots = ".."@;
    assert(dots =~= seq!['.', '.']);
    if is_bucket_name(s) {
        assert forall|i: int| 0 <= i < s.len() implies is_lower_or_digit(#[trigger] s[i]) || s[i]
            == '.' || s[i] == '-' by {
            assert(is_name_char(s[i]));
        }
        assert forall|p: int| !#[trigger] occurs_at(s, dots, p) by {
            if occurs_at(s, dots, p) {
                assert(s.subrange(p, p + 2)[0] == s[p]);
                assert(s.subrange(p, p + 2)[1] == s[p + 1]);
                assert(s[p + 1] == '.');
            }
        }
    }
    if is_proper_bucket(s) {
        assert forall|i: int| 0 < i < s.len() && #[trigger] s[i] == '.' implies s[i - 1] != '.' by {
            if s[i - 1] == '.' {
                assert(s.subrange(i - 1, i - 1 + 2) =~= dots);
                assert(occurs_at(s, dots, i - 1));
            }
        }
        assert forall|i: int| 0 <= i < s.len() implies is_name_char(#[trigger] s[i]) by {
            assert(is_lower_or_digit(s[i]) || s[i] == '.' || s[i] == '-');
        }
    }
}

/// A pair of names is accepted exactly where both are.
pub proof fn object_names_are_accepted_together(
    bucket: &str,
    key: &str,
    r: Result<(), StorageError>,
)
    requires
        call_ensures(validate_object_path, (bucket, key), r),
    ensures
        r == (if is_proper_bucket(bucket@) && is_proper_key(key@) {
            Ok::<(), StorageError>(())
        } else {
            Err(StorageError::PathTraversal)
        }),
{
    lemma_proper_bucket(bucket@);
    lemma_proper_key(key@);
}

/// In the plain layout a key is accepted where it has no two dots in a row and no NUL, and does not
/// begin with a slash.
pub proof fn plain_names_are_accepted_together(bucket: &str, key: &str, r: Result<(), StorageError>)
    requires
        call_ensures(crate::filesystem::store::validate_object_path, (bucket, key), r),
    ensures
        r == (if is_proper_bucket(bucket@) && (forall|p: int|
            !#[trigger] occurs_at(key@, ".."@, p)) && (forall|i: int|
            0 <= i < key@.len() ==> #[trigger] key@[i] != '\0') && (key@.len() == 0 || key@[0]
            != '/') {
            Ok::<(), StorageError>(())
        } else {
            Err(StorageError::PathTraversal)
        }),
{
    lemma_proper_bucket(bucket@);
    reveal_strlit("..");
    reveal_strlit("/");
    let dots = ".."@;
    assert("/"@ =~= seq!['/']);
    assert(has_text(key@, dots) <==> !(forall|p: int| !#[trigger] occurs_at(key@, dots, p))) by {
        if has_text(key@, dots) {
            let p = choose|p: int| stands_at(key@, dots, p);
            assert(occurs_at(key@, dots, p));
        }
        if !(forall|p: int| !#[trigger] occurs_at(key@, dots, p)) {
            let p = choose|p: int| #[trigger] occurs_at(key@, dots, p);
            assert(stands_at(key@, dots, p));
        }
    }
    assert(key@.contains('\0') <==> !(forall|i: int|
        0 <= i < key@.len() ==> #[trigger] key@[i] != '\0'));
    assert("/"@.is_prefix_of(key@) <==> key@.len() > 0 && key@[0] == '/') by {
        if key@.len() > 0 && key@[0] == '/' {
            assert(key@.subrange(0, 1) =~= seq!['/']);
        }
        if "/"@.is_prefix_of(key@) {
            assert(key@.subrange(0, 1)[0] == key@[0]);
        }
    }
}

/// The manifest of a key lies in the tree of manifests under the key itself, with the suffix.
pub proof fn manifest_lies_under_its_key(root: &str, key: &str, r: String)
    requires
        call_ensures(manifest_path, (root, key), r),
        is_proper_key(key@),
        root@.len() > 0,
        root@.last() != '/',
    ensures
        r@ == root@ + seq!['/'] + key@ + ".s3gw-live.meta"@,
{
    lemma_location(root@, key@);
}

pub proof fn lemma_location(root: Seq<char>, key: Seq<char>)
    requires
        is_proper_key(key),
        root.len() > 0,
        root.last() != '/',
    ensures
        crate::manifest::manifest_location(root, key) == root + seq!['/'] + key
            + ".s3gw-live.meta"@,
{
    lemma_proper_key(key);
    manifest_path_stays_below_its_root(root, key);
    lemma_suffix_at_the_end(key);
    assert(root.push('/') + (key + ".s3gw-live.meta"@) =~= root + seq!['/'] + key
        + ".s3gw-live.meta"@);
}

proof fn lemma_suffix_at_the_end(key: Seq<char>)
    requires
        is_object_key(key),
    ensures
        join(manifest_components(key), '/') == key + ".s3gw-live.meta"@,
{
    lemma_object_key(key);
    let segs = split(key, '/');
    let comps = manifest_components(key);
    if segs.len() == 1 {
        assert(comps[0] == segs[0] + ".s3gw-live.meta"@);
    } else {
        assert(comps.drop_last() =~= segs.drop_last());
        assert(comps.last() == segs.last() + ".s3gw-live.meta"@);
        let front = join(segs.drop_last(), '/').push('/');
        assert(key == front + segs.last());
        assert(front + (segs.last() + ".s3gw-live.meta"@) =~= (front + segs.last())
            + ".s3gw-live.meta"@);
    }
}

pub proof fn lemma_read_back(key: Seq<char>)
    requires
        is_proper_key(key),
    ensures
        decoded_key(key + ".s3gw-live.meta"@) == Some(key),
{
    lemma_proper_key(key);
    lemma_suffix_at_the_end(key);
    manifest_path_decodes_to_its_key(key);
}

/// The key of a manifest is read back from its path.
pub proof fn manifest_path_is_decoded(key: Seq<char>, rel: &str, r: Option<String>)
    requires
        call_ensures(decode_relpath_to_key, (rel,), r),
        is_proper_key(key),
        rel@ == key + ".s3gw-live.meta"@,
    ensures
        r matches Some(k) && k@ == key,
{
    lemma_read_back(key);
}

proof fn lemma_named_is_piece(all: Seq<Seq<char>>, i: int) -> (k: int)
    requires
        0 <= i < named_pieces(all).len(),
    ensures
        0 <= k < all.len(),
        all[k] == named_pieces(all)[i],
    decreases all.len(),
{
    if all.last().len() == 0 || (all.len() > 1 && all.last() == seq!['.']) {
        lemma_named_is_piece(all.drop_last(), i)
    } else if i == named_pieces(all).len() - 1 {
        all.len() - 1
    } else {
        lemma_named_is_piece(all.drop_last(), i)
    }
}

pub proof fn lemma_not_a_manifest(rel: Seq<char>)
    requires
        forall|i: int, j: int|
            #[trigger] is_segment(rel, '/', i, j) ==> !".s3gw-live.meta"@.is_suffix_of(
                rel.subrange(i, j),
            ),
    ensures
        decoded_key(rel) is None,
{
    let comps = components(rel);
    if decoded_key(rel) is Some {
        let all = split(rel, '/');
        let named = named_pieces(all);
        reveal_strlit(".s3gw-live.meta");
        let last = comps.last();
        if named.len() == 0 {
            assert(last.len() <= 1);
        } else {
            assert(last == named[named.len() - 1]);
            let k = lemma_named_is_piece(all, named.len() - 1);
            let (i, j) = lemma_piece_is_segment(rel, '/', k);
            assert(is_segment(rel, '/', i, j));
        }
    }
}

/// A file that is not named like a manifest is none.
pub proof fn other_files_are_no_manifests(rel: &str, r: Option<String>)
    requires
        call_ensures(decode_relpath_to_key, (rel,), r),
        forall|i: int, j: int|
            #[trigger] is_segment(rel@, '/', i, j) ==> !".s3gw-live.meta"@.is_suffix_of(
                rel@.subrange(i, j),
            ),
    ensures
        r is None,
{
    lemma_not_a_manifest(rel@);
}

/// The id of a blob: lower-case hexadecimal digits with hyphens at four places.
pub open spec fn is_proper_id(s: Seq<char>) -> bool {
    &&& s.len() == 36
    &&& s[8] == '-' && s[13] == '-' && s[18] == '-' && s[23] == '-'
    &&& forall|i: int|
        0 <= i < 36 && i != 8 && i != 13 && i != 18 && i != 23 ==> ('0' <= #[trigger] s[i] && s[i]
            <= '9') || ('a' <= s[i] && s[i] <= 'f')
}

/// Which ids are those of blobs.
pub proof fn blob_id_is_accepted_by_its_form(id: &str, r: bool)
    requires
        call_ensures(is_valid_blob_id, (id,), r),
    ensures
        r <==> is_proper_id(id@),
{
    let s = id@;
    if r {
        assert(s[8] == '-' && s[13] == '-' && s[18] == '-' && s[23] == '-');
        assert forall|i: int| 0 <= i < 36 && i != 8 && i != 13 && i != 18 && i != 23 implies ('0'
            <= #[trigger] s[i] && s[i] <= '9') || ('a' <= s[i] && s[i] <= 'f') by {
            assert(crate::outside::is_hex(s[i]));
        }
    }
    if is_proper_id(s) {
        assert forall|i: int| 0 <= i < 36 implies if crate::outside::is_hyphen_position(i) {
            #[trigger] s[i] == '-'
        } else {
            crate::outside::is_hex(s[i])
        } by {}
        assert forall|i: int| 0 <= i < 36 implies !('A' <= #[trigger] s[i] && s[i] <= 'F') by {
            if crate::outside::is_hyphen_position(i) {
                assert(s[i] == '-');
            }
        }
    }
}

/// A blob lies two directories deep, named by the first four digits of its id.
pub proof fn blob_lies_under_its_digits(
    root: &str,
    id: &str,
    valid: bool,
    path: String,
    dirs: Vec<String>,
)
    requires
        call_ensures(is_valid_blob_id, (id,), valid),
        valid,
        call_ensures(blob_path, (root, id), path),
        call_ensures(fsync_blob_dir, (root, id), dirs),
        root@.len() > 0,
        root@.last() != '/',
    ensures
        ({
            let top = root@ + seq!['/'] + "blobs"@;
            let outer = top + seq!['/'] + id@.subrange(0, 2);
            let inner = outer + seq!['/'] + id@.subrange(2, 4);
            &&& path@ == inner + seq!['/'] + id@
            &&& dirs@.len() == 3
            &&& dirs@[0]@ == inner
            &&& dirs@[1]@ == outer
            &&& dirs@[2]@ == top
        }),
{
    blob_path_stays_below_its_bucket(root@, id@);
    let c = blob_components(id@);
    reveal_strlit("blobs");
    reveal_with_fuel(join, 4);
    let top = root@ + seq!['/'] + "blobs"@;
    let outer = top + seq!['/'] + id@.subrange(0, 2);
    let inner = outer + seq!['/'] + id@.subrange(2, 4);
    assert forall|i: int| 0 <= i < 4 implies (#[trigger] c[i]).len() > 0 by {}
    assert(c.drop_last() =~= seq![c[0], c[1], c[2]]);
    assert(c.drop_last().drop_last() =~= seq![c[0], c[1]]);
    assert(c.drop_last().drop_last().drop_last() =~= seq![c[0]]);
    assert(path@ =~= inner + seq!['/'] + id@);
    let c3 = c.take(3);
    let c2 = c.take(2);
    let c1 = c.take(1);
    lemma_join_all(root@, c3);
    lemma_join_all(root@, c2);
    lemma_join_all(root@, c1);
    assert(c3.drop_last() =~= seq![c[0], c[1]]);
    assert(c3.drop_last().drop_last() =~= seq![c[0]]);
    assert(c2.drop_last() =~= seq![c[0]]);
    assert(texts(dirs@).len() == 3);
    assert(texts(dirs@)[0] == dirs@[0]@);
    assert(texts(dirs@)[1] == dirs@[1]@);
    assert(texts(dirs@)[2] == dirs@[2]@);
    assert(dirs@[0]@ =~= inner);
    assert(dirs@[1]@ =~= outer);
    assert(dirs@[2]@ =~= top);
}

proof fn lemma_no_front(s: Seq<char>)
    requires
        is_ascii_chars(s),
        s.len() < 2,
    ensures
        two_bytes(encode_utf8(s)) is None,
{
    is_ascii_chars_encode_utf8(s);
    encode_utf8_valid_utf8(s);
}

/// The directories of any plain id: its first two characters and the next two, or two zeros where
/// it is too short for them.
pub proof fn short_id_lies_under_zeros(root: &str, id: &str, path: String)
    requires
        call_ensures(blob_path, (root, id), path),
        root@.len() > 0,
        root@.last() != '/',
        id@.len() > 0,
        forall|i: int|
            0 <= i < id@.len() ==> '\0' <= #[trigger] id@[i] && id@[i] <= '\u{7f}' && id@[i] != '/',
    ensures
        ({
            let outer = if id@.len() >= 2 {
                id@.subrange(0, 2)
            } else {
                "00"@
            };
            let inner = if id@.len() >= 4 {
                id@.subrange(2, 4)
            } else {
                "00"@
            };
            path@ == root@ + seq!['/'] + "blobs"@ + seq!['/'] + outer + seq!['/'] + inner
                + seq!['/'] + id@
        }),
{
    let s = id@;
    let outer = if s.len() >= 2 {
        s.subrange(0, 2)
    } else {
        "00"@
    };
    let inner = if s.len() >= 4 {
        s.subrange(2, 4)
    } else {
        "00"@
    };
    assert(is_ascii_chars(s));
    if s.len() >= 2 {
        lemma_ascii_front(s);
        assert(s.take(2) =~= s.subrange(0, 2));
        if s.len() >= 4 {
            lemma_ascii_front(s.skip(2));
            assert(s.skip(2).take(2) =~= s.subrange(2, 4));
        } else {
            lemma_no_front(s.skip(2));
        }
    } else {
        lemma_no_front(s);
    }
    reveal_strlit("blobs");
    reveal_strlit("00");
    reveal_with_fuel(join, 4);
    let c = blob_components(s);
    assert(c =~= seq!["blobs"@, outer, inner, s]);
    assert forall|i: int, j: int| 0 <= i < 4 && 0 <= j < c[i].len() implies c[i][j] != '/' by {
        if i == 1 && s.len() >= 2 {
            assert(c[i][j] == s[j]);
        } else if i == 2 && s.len() >= 4 {
            assert(c[i][j] == s[j + 2]);
        } else if i == 3 {
            assert(c[i][j] == s[j]);
        }
    }
    assert forall|i: int| 0 <= i < 4 implies (#[trigger] c[i]).len() > 0 by {}
    lemma_join_all(root@, c);
    assert(c.drop_last() =~= seq![c[0], c[1], c[2]]);
    assert(c.drop_last().drop_last() =~= seq![c[0], c[1]]);
    assert(c.drop_last().drop_last().drop_last() =~= seq![c[0]]);
    assert(path@ =~= root@ + seq!['/'] + "blobs"@ + seq!['/'] + outer + seq!['/'] + inner + seq!['/']
        + s);
}

/// The path of a key below the manifest tree is the key itself.
pub proof fn key_is_its_own_path(key: &str, r: String)
    requires
        call_ensures(escape_key_to_relpath, (key,), r),
        is_proper_key(key@),
    ensures
        r@ == key@,
{
    lemma_proper_key(key@);
    lemma_object_key(key@);
}

/// A path below a directory: one slash between the two. A path that begins with a slash stands for
/// itself.
pub proof fn path_is_joined_with_one_slash(base: &str, rel: &str, r: String)
    requires
        call_ensures(join_path, (base, rel), r),
    ensures
        rel@.len() > 0 && rel@[0] == '/' ==> r@ == rel@,
        rel@.len() == 0 || rel@[0] != '/' ==> {
            &&& base@.len() == 0 ==> r@ == rel@
            &&& base@.len() > 0 && base@.last() == '/' ==> r@ == base@ + rel@
            &&& base@.len() > 0 && base@.last() != '/' ==> r@ == base@ + seq!['/'] + rel@
        },
{
    if base@.len() == 0 {
        assert(base@ + rel@ =~= rel@);
    }
    assert(base@.push('/') + rel@ =~= base@ + seq!['/'] + rel@);
}

/// An absolute path in its plain form: a slash before each name, and no dots.
pub open spec fn is_plain_path(p: Seq<char>) -> bool {
    &&& p.len() > 1
    &&& p[0] == '/'
    &&& forall|i: int, j: int|
        0 < i && #[trigger] is_segment(p, '/', i, j) ==> j > i && p.subrange(i, j) != seq!['.']
}

proof fn lemma_after_empty(all: Seq<Seq<char>>)
    requires
        forall|i: int|
            0 <= i < all.len() ==> (#[trigger] all[i]).len() > 0 && all[i] != seq!['.'],
    ensures
        named_pieces(seq![Seq::<char>::empty()] + all) == all,
    decreases all.len(),
{
    let whole = seq![Seq::<char>::empty()] + all;
    if all.len() == 0 {
        assert(whole.last().len() == 0);
        assert(whole.drop_last() =~= Seq::empty());
        assert(named_pieces(whole.drop_last()) =~= Seq::empty());
        assert(named_pieces(whole) =~= all);
    } else {
        assert(whole.drop_last() =~= seq![Seq::<char>::empty()] + all.drop_last());
        assert(whole.last() == all[all.len() - 1]);
        lemma_after_empty(all.drop_last());
        assert(all.drop_last().push(all.last()) =~= all);
    }
}

proof fn lemma_plain_components(p: Seq<char>)
    requires
        is_plain_path(p),
    ensures
        components(p) == seq![seq!['/']] + split(p.skip(1), '/'),
{
    let q = p.skip(1);
    let e = Seq::<char>::empty();
    assert(p =~= e.push('/') + q);
    lemma_split_at(e, q, '/');
    assert(split(e, '/') == seq![e]);
    assert forall|k: int| 0 <= k < split(q, '/').len() implies (#[trigger] split(q, '/')[k]).len() > 0
        && split(q, '/')[k] != seq!['.'] by {
        let (i, j) = lemma_piece_is_segment(q, '/', k);
        assert(is_segment(p, '/', i + 1, j + 1)) by {
            if i > 0 {
                assert(p[i] == q[i - 1]);
            }
            if j < q.len() {
                assert(p[j + 1] == q[j]);
            }
            assert forall|x: int| i + 1 <= x < j + 1 implies #[trigger] p[x] != '/' by {
                assert(q[x - 1] != '/');
            }
        }
        assert(p.subrange(i + 1, j + 1) =~= q.subrange(i, j));
    }
    lemma_after_empty(split(q, '/'));
}

/// A path lies within a directory exactly where it is that directory, or begins with it and a
/// slash.
pub proof fn path_within_begins_with_its_directory(base: &str, path: &str, r: bool)
    requires
        call_ensures(within, (base, path), r),
        is_plain_path(base@),
        is_plain_path(path@),
    ensures
        r <==> path@ == base@ || (base@ + seq!['/']).is_prefix_of(path@),
{
    let b = base@.skip(1);
    let p = path@.skip(1);
    lemma_plain_components(base@);
    lemma_plain_components(path@);
    let cb = components(base@);
    let cp = components(path@);
    let sb = split(b, '/');
    let sp = split(p, '/');
    lemma_split_pieces(b, '/');
    lemma_split_pieces(p, '/');
    if r {
        assert(cp.subrange(0, cb.len() as int) == cb);
        assert forall|i: int| 0 <= i < sb.len() implies sp[i] == sb[i] by {
            assert(cp.subrange(0, cb.len() as int)[i + 1] == cb[i + 1]);
        }
        if sb.len() == sp.len() {
            assert(sb =~= sp);
            assert(base@ =~= seq!['/'] + b);
            assert(path@ =~= seq!['/'] + p);
        } else {
            let rest = sp.skip(sb.len() as int);
            let tail = join(rest, '/');
            assert forall|i: int, j: int|
                0 <= i < rest.len() && 0 <= j < rest[i].len() implies rest[i][j] != '/' by {
                assert(rest[i] == sp[sb.len() + i]);
            }
            lemma_split_join(rest, '/');
            lemma_split_at(b, tail, '/');
            lemma_split_pieces(b.push('/') + tail, '/');
            assert(sb + rest =~= sp);
            assert(p == b.push('/') + tail);
            assert(path@ =~= seq!['/'] + p);
            assert(base@ =~= seq!['/'] + b);
            assert(path@.subrange(0, base@.len() as int + 1) =~= base@ + seq!['/']);
        }
    }
    if (base@ + seq!['/']).is_prefix_of(path@) {
        let n = base@.len() as int;
        assert(path@.subrange(0, n + 1) == base@ + seq!['/']);
        let tail = path@.skip(n + 1);
        assert(p =~= b.push('/') + tail) by {
            assert forall|i: int| 0 <= i < n implies path@[i] == base@[i] by {
                assert(path@.subrange(0, n + 1)[i] == path@[i]);
            }
            assert(path@.subrange(0, n + 1)[n] == path@[n]);
        }
        lemma_split_at(b, tail, '/');
        assert(cp.subrange(0, cb.len() as int) =~= cb);
        assert(cb.is_prefix_of(cp));
    }
    if path@ == base@ {
        assert(cp.subrange(0, cb.len() as int) =~= cb);
        assert(cb.is_prefix_of(cp));
    }
}

/// A key lies as many directories deep as it has slashes.
pub proof fn each_slash_is_one_directory(a: &str, b: &str, whole: &str, da: usize, db: usize, dw: usize)
    requires
        call_ensures(depth_of, (a,), da),
        call_ensures(depth_of, (b,), db),
        call_ensures(depth_of, (whole,), dw),
        whole@ == a@ + seq!['/'] + b@,
    ensures
        dw == da + db + 1,
        (forall|i: int| 0 <= i < a@.len() ==> #[trigger] a@[i] != '/') ==> da == 0,
{
    assert(whole@ =~= a@.push('/') + b@);
    lemma_split_at(a@, b@, '/');
    if forall|i: int| 0 <= i < a@.len() ==> #[trigger] a@[i] != '/' {
        lemma_single(a@, '/');
    }
}

} // verus!
