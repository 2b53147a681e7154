//! Completing an upload: what a list of claims has to be, and what is made of it.

use vstd::prelude::*;
use crate::cas::complete::{
    assemble_steps, assembled, check_claims, claim_views, claimed_part, claims_error, claims_hold,
    composite_etag, joined_digests, move_steps, total_size, unquote, unquoted, unquoted_back,
    unquoted_front, Assembling, Claim, Completing,
};
use crate::cas::objects::{stage_steps, Publishing};
use crate::cas::parts::{ascending, part_at, read_part_refs};
use crate::cas::records::{part_records, PartRefFile, PartRefFileView};
use crate::cas::store::{quote, Env};
use crate::manifest::ManifestView;
use crate::numbers::{decimal, decimal_text};
use crate::outside::{hex_bytes, hex_text, is_canonical_uuid, is_hex_text, md5_of};
use crate::plan::call::{CallView, OutcomeView, RefEntry, Report, UploadProbe};
use crate::plan::place::Place;
use crate::plan::runner::{must, Plan, StepView};
use crate::types::{pairs, IoError, StorageError};

verus! {

/// The list names at least one part.
pub open spec fn names_a_part(claims: Seq<Claim>) -> bool {
    claims.len() > 0
}

/// Every number is one that a part can have.
pub open spec fn numbers_in_range(claims: Seq<Claim>) -> bool {
    forall|i: int| 0 <= i < claims.len() ==> 1 <= (#[trigger] claims[i]).part_number <= 10000
}

/// Every number is above all numbers before it. There may be gaps.
pub open spec fn numbers_grow(claims: Seq<Claim>) -> bool {
    forall|i: int, j: int|
        0 <= i < j < claims.len() ==> (#[trigger] claims[i]).part_number < (
        #[trigger] claims[j]).part_number
}

proof fn lemma_grows(claims: Seq<Claim>, i: int, j: int)
    requires
        0 <= i < j < claims.len(),
        claims_error(claim_views(claims)) is None,
    ensures
        claims[i].part_number < claims[j].part_number,
    decreases j - i,
{
    let views = claim_views(claims);
    assert(views[j].part_number > views[j - 1].part_number);
    if i < j - 1 {
        lemma_grows(claims, i, j - 1);
    }
}

/// A list of claims is accepted exactly where it names a part, every number is between 1 and 10000,
/// and the numbers ascend, with or without gaps. Where no number can be that of a part, the part is
/// invalid; where only the order is wrong, the order is.
pub proof fn ascending_claims_are_accepted(claims: &Vec<Claim>, r: Option<StorageError>)
    requires
        call_ensures(check_claims, (claims,), r),
    ensures
        r is None <==> names_a_part(claims@) && numbers_in_range(claims@) && numbers_grow(claims@),
        r == Some(StorageError::InvalidPart) <==> !(names_a_part(claims@) && numbers_in_range(
            claims@,
        )),
        r == Some(StorageError::InvalidPartOrder) <==> names_a_part(claims@) && numbers_in_range(
            claims@,
        ) && !numbers_grow(claims@),
{
    let views = claim_views(claims@);
    assert(r == claims_error(views));
    assert(numbers_in_range(claims@) <==> forall|i: int|
        0 <= i < views.len() ==> 1 <= (#[trigger] views[i]).part_number <= 10000) by {
        assert(forall|i: int|
            0 <= i < views.len() ==> (#[trigger] views[i]).part_number == claims@[i].part_number);
        assert(forall|i: int|
            0 <= i < views.len() ==> (#[trigger] claims@[i]).part_number == views[i].part_number);
    }
    if numbers_grow(claims@) {
        assert forall|i: int| 0 < i < views.len() implies (#[trigger] views[i]).part_number
            > views[i - 1].part_number by {
            assert(claims@[i - 1].part_number < claims@[i].part_number);
        }
    }
    if claims_error(views) is None {
        assert forall|i: int, j: int| 0 <= i < j < claims@.len() implies (
        #[trigger] claims@[i]).part_number < (#[trigger] claims@[j]).part_number by {
            lemma_grows(claims@, i, j);
        }
    }
}

/// A request to complete an upload that was found is refused for its claims exactly where they name
/// no part, a number is not between 1 and 10000, or the numbers do not ascend.
pub proof fn completion_is_admitted_with_ascending_claims(
    c: &Completing,
    env: &Env,
    probe: UploadProbe,
    r: Result<Plan, StorageError>,
)
    requires
        call_ensures(Completing::admitted, (c, env, probe), r),
        r is Ok,
    ensures
        !(names_a_part(c.claims@) && numbers_in_range(c.claims@)) ==> r->Ok_0@.last() == (
        StepView::Fail { error: StorageError::InvalidPart }),
        names_a_part(c.claims@) && numbers_in_range(c.claims@) && !numbers_grow(c.claims@)
            ==> r->Ok_0@.last() == (StepView::Fail { error: StorageError::InvalidPartOrder }),
        names_a_part(c.claims@) && numbers_in_range(c.claims@) && numbers_grow(c.claims@)
            ==> forall|i: int| 0 <= i < r->Ok_0@.len() ==> !(#[trigger] r->Ok_0@[i] is Fail),
{
    let views = claim_views(c.claims@);
    let e = claims_error(views);
    assert(numbers_in_range(c.claims@) <==> forall|i: int|
        0 <= i < views.len() ==> 1 <= (#[trigger] views[i]).part_number <= 10000) by {
        assert(forall|i: int|
            0 <= i < views.len() ==> (#[trigger] views[i]).part_number == c.claims@[i].part_number);
        assert(forall|i: int|
            0 <= i < views.len() ==> (#[trigger] c.claims@[i]).part_number == views[i].part_number);
    }
    if numbers_grow(c.claims@) {
        assert forall|i: int| 0 < i < views.len() implies (#[trigger] views[i]).part_number
            > views[i - 1].part_number by {
            assert(c.claims@[i - 1].part_number < c.claims@[i].part_number);
        }
    }
    if e is None {
        assert forall|i: int, j: int| 0 <= i < j < c.claims@.len() implies (
        #[trigger] c.claims@[i]).part_number < (#[trigger] c.claims@[j]).part_number by {
            lemma_grows(c.claims@, i, j);
        }
    }
}

pub proof fn lemma_unquoted_front(s: Seq<char>) -> (i: int)
    ensures
        0 <= i <= s.len(),
        unquoted_front(s) == s.skip(i),
        forall|k: int| 0 <= k < i ==> s[k] == '"',
        i < s.len() ==> s[i] != '"',
    decreases s.len(),
{
    if s.len() > 0 && s[0] == '"' {
        let i = lemma_unquoted_front(s.skip(1));
        assert(s.skip(1).skip(i) =~= s.skip(i + 1));
        assert forall|k: int| 0 <= k < i + 1 implies s[k] == '"' by {
            if k > 0 {
                assert(s.skip(1)[k - 1] == s[k]);
            }
        }
        if i + 1 < s.len() {
            assert(s.skip(1)[i] == s[i + 1]);
        }
        i + 1
    } else {
        assert(s.skip(0) =~= s);
        0
    }
}

pub proof fn lemma_unquoted_back(s: Seq<char>) -> (j: int)
    ensures
        0 <= j <= s.len(),
        unquoted_back(s) == s.take(j),
        forall|k: int| j <= k < s.len() ==> s[k] == '"',
        j > 0 ==> s[j - 1] != '"',
    decreases s.len(),
{
    if s.len() > 0 && s.last() == '"' {
        let j = lemma_unquoted_back(s.drop_last());
        assert(s.drop_last().take(j) =~= s.take(j));
        assert forall|k: int| j <= k < s.len() implies s[k] == '"' by {
            if k < s.len() - 1 {
                assert(s.drop_last()[k] == s[k]);
            }
        }
        j
    } else {
        assert(s.take(s.len() as int) =~= s);
        s.len() as int
    }
}

/// What `s` is without the quotes around it: only quotes are cut off, and at neither end is one
/// left.
pub open spec fn is_inner_text(s: Seq<char>, t: Seq<char>, i: int) -> bool {
    &&& 0 <= i && i + t.len() <= s.len()
    &&& s.subrange(i, i + t.len()) == t
    &&& forall|k: int| 0 <= k < i || i + t.len() <= k < s.len() ==> #[trigger] s[k] == '"'
    &&& t.len() > 0 ==> t[0] != '"' && t.last() != '"'
}

/// The quotes around a text are taken off, and nothing else.
pub proof fn quotes_are_taken_off(s: &str, r: &str)
    requires
        call_ensures(unquote, (s,), r),
    ensures
        exists|i: int| is_inner_text(s@, r@, i),
{
    let i = lemma_unquoted_front(s@);
    let rest = s@.skip(i);
    let j = lemma_unquoted_back(rest);
    assert(r@ == rest.take(j));
    assert forall|k: int| 0 <= k < i || i + r@.len() <= k < s@.len() implies #[trigger] s@[k]
        == '"' by {
        if k >= i {
            assert(rest[k - i] == s@[k]);
        }
    }
    assert(s@.subrange(i, i + r@.len()) =~= r@);
    assert(is_inner_text(s@, r@, i));
}

/// A text that was put in quotes is got back by taking them off, where it has no quotes at its own
/// ends.
pub proof fn quoted_text_is_unquoted(s: &str, q: String, text: &str, r: &str)
    requires
        call_ensures(quote, (s,), q),
        text@ == q@,
        call_ensures(unquote, (text,), r),
        s@.len() > 0 ==> s@[0] != '"' && s@.last() != '"',
    ensures
        q@.len() == s@.len() + 2,
        q@[0] == '"',
        q@.last() == '"',
        r@ == s@,
{
    quotes_are_taken_off(text, r);
    let i = choose|i: int| is_inner_text(q@, r@, i);
    assert(q@ =~= seq!['"'] + s@ + seq!['"']);
    if s@.len() > 0 {
        assert(q@[1] == s@[0]);
        assert(q@[s@.len() as int] == s@.last());
        assert(i >= 1) by {
            if i == 0 {
                assert(r@.len() > 0) by {
                    if r@.len() == 0 {
                        assert(q@[1] == '"');
                    }
                }
                assert(r@[0] == q@[0]);
            }
        }
        assert(i <= 1);
        assert(i + r@.len() >= s@.len() + 1);
        assert(i + r@.len() <= s@.len() + 1) by {
            if i + r@.len() == s@.len() + 2 {
                assert(r@.last() == q@[s@.len() as int + 1]);
            }
        }
        assert(r@ =~= s@);
    } else {
        if r@.len() > 0 {
            assert(r@[0] == q@[i]);
        }
        assert(r@ =~= s@);
    }
}

/// The entity tag of an object that was uploaded in parts: in quotes, the digest in hexadecimal, a
/// hyphen, and the number of parts.
pub proof fn composite_tag_has_the_digest_and_the_count(
    digest: &[u8],
    parts: usize,
    r: String,
    count: String,
)
    requires
        call_ensures(composite_etag, (digest, parts), r),
        call_ensures(decimal_text, (parts as u64,), count),
    ensures
        r@ == seq!['"'] + hex_text(digest@) + seq!['-'] + count@ + seq!['"'],
{
    reveal_strlit("-");
    assert("-"@ =~= seq!['-']);
    assert(r@ =~= seq!['"'] + hex_text(digest@) + seq!['-'] + count@ + seq!['"']);
}

/// The record that a claim is for: it has the claimed number, and its digest is the claimed entity
/// tag without quotes. Its blob has an id.
pub open spec fn is_claimed(claim: Claim, record: PartRefFile) -> bool {
    &&& claim.part_number == record.part_number
    &&& record.md5_hex@.len() > 0
    &&& exists|i: int| is_inner_text(claim.etag@, record.md5_hex@, i)
    &&& is_canonical_uuid(record.blob_id@)
}

/// For every claim, `ks` gives the place of the record it is for.
pub open spec fn are_claimed(claims: Seq<Claim>, table: Seq<PartRefFile>, ks: Seq<int>) -> bool {
    &&& ks.len() == claims.len()
    &&& forall|i: int|
        #![trigger ks[i]]
        0 <= i < ks.len() ==> 0 <= ks[i] < table.len() && is_claimed(claims[i], table[ks[i]])
            && is_hex_text(table[ks[i]].md5_hex@)
}

/// Each number is the one before it and one more size.
pub open spec fn are_sums(table: Seq<PartRefFile>, ks: Seq<int>, sums: Seq<int>) -> bool {
    &&& sums.len() == ks.len() + 1
    &&& sums[0] == 0
    &&& forall|i: int|
        #![trigger ks[i]]
        0 <= i < ks.len() ==> sums[i + 1] == sums[i] + table[ks[i]].size
}

/// Each text of bytes is the one before it and one more digest.
pub open spec fn are_joined(table: Seq<PartRefFile>, ks: Seq<int>, joined: Seq<Seq<u8>>) -> bool {
    &&& joined.len() == ks.len() + 1
    &&& joined[0].len() == 0
    &&& forall|i: int|
        #![trigger ks[i]]
        0 <= i < ks.len() ==> joined[i + 1] == joined[i] + hex_bytes(table[ks[i]].md5_hex@)
}

proof fn lemma_part_at(table: Seq<PartRefFileView>, k: int)
    requires
        ascending(table),
        0 <= k < table.len(),
    ensures
        part_at(table, table[k].part_number as int) == Some(table[k]),
    decreases table.len(),
{
    if k < table.len() - 1 {
        let front = table.drop_last();
        assert(ascending(front));
        assert(table[k].part_number < table[table.len() - 1].part_number);
        lemma_part_at(front, k);
    }
}

pub proof fn lemma_is_inner(s: Seq<char>, t: Seq<char>, i: int)
    requires
        is_inner_text(s, t, i),
        t.len() > 0,
    ensures
        unquoted(s) == t,
{
    let a = lemma_unquoted_front(s);
    let rest = s.skip(a);
    let b = lemma_unquoted_back(rest);
    assert(t[0] == s[i]);
    assert(t.last() == s[i + t.len() - 1]);
    assert(a == i);
    assert(rest[i + t.len() - 1 - a] == s[i + t.len() - 1]);
    assert(b == t.len()) by {
        if b > t.len() {
            assert(rest[b - 1] == s[a + b - 1]);
        }
    }
    assert(rest.take(b) =~= t);
}

proof fn lemma_is_claimed(claim: Claim, table: Seq<PartRefFile>, k: int)
    requires
        ascending(part_records(table)),
        0 <= k < table.len(),
        is_claimed(claim, table[k]),
    ensures
        claimed_part(claim@, part_records(table)) == Some(table[k]@),
{
    let views = part_records(table);
    assert(views[k] == table[k]@);
    lemma_part_at(views, k);
    let i = choose|i: int| is_inner_text(claim.etag@, table[k].md5_hex@, i);
    lemma_is_inner(claim.etag@, table[k].md5_hex@, i);
}

proof fn lemma_part_index(table: Seq<PartRefFileView>, n: int) -> (k: int)
    requires
        part_at(table, n) is Some,
    ensures
        0 <= k < table.len(),
        part_at(table, n) == Some(table[k]),
        table[k].part_number == n,
    decreases table.len(),
{
    if table.last().part_number == n {
        table.len() - 1
    } else {
        lemma_part_index(table.drop_last(), n)
    }
}

proof fn lemma_number_kept(claim: Claim, record: PartRefFile)
    requires
        is_claimed(claim, record),
    ensures
        claim.part_number as u32 == claim.part_number,
{
    let n: u32 = record.part_number;
    assert(claim.part_number == n);
    assert(n >= 0);
}

/// The blob of a record is looked at, and moved to the id that its claim gives it.
pub open spec fn is_moved(steps: Seq<StepView>, record: PartRefFile, id: Seq<char>) -> bool {
    &&& steps.contains(
        StepView::Do {
            call: CallView::CheckFile { at: Place::Blob { id: record.blob_id@ }, size: record.size },
            rule: must(Report::Given(StorageError::InvalidPart)),
        },
    )
    &&& steps.contains(
        StepView::Do {
            call: CallView::Move {
                src: Place::Blob { id: record.blob_id@ },
                dst: Place::Blob { id },
            },
            rule: must(Report::Io),
        },
    )
}

proof fn lemma_moved_later(a: Seq<StepView>, b: Seq<StepView>, record: PartRefFile, id: Seq<char>)
    requires
        is_moved(a, record, id) || is_moved(b, record, id),
    ensures
        is_moved(a + b, record, id),
{
    let x = StepView::Do {
        call: CallView::CheckFile { at: Place::Blob { id: record.blob_id@ }, size: record.size },
        rule: must(Report::Given(StorageError::InvalidPart)),
    };
    let y = StepView::Do {
        call: CallView::Move { src: Place::Blob { id: record.blob_id@ }, dst: Place::Blob { id } },
        rule: must(Report::Io),
    };
    if is_moved(a, record, id) {
        let i = a.index_of(x);
        let j = a.index_of(y);
        assert((a + b)[i] == x && (a + b)[j] == y);
    } else {
        let i = b.index_of(x);
        let j = b.index_of(y);
        assert((a + b)[a.len() + i] == x && (a + b)[a.len() + j] == y);
    }
}

/// What the steps of an assembly move, where every claim holds.
proof fn lemma_all_moved(
    claims: Seq<Claim>,
    table: Seq<PartRefFile>,
    ks: Seq<int>,
    sums: Seq<int>,
    from: int,
    fsync: bool,
)
    requires
        ascending(part_records(table)),
        are_claimed(claims, table, ks),
        are_sums(table, ks, sums),
        0 <= from <= claims.len(),
        sums[claims.len() as int] <= u64::MAX,
    ensures
        0 <= sums[from] <= sums[claims.len() as int],
        forall|i: int|
            #![trigger ks[i]]
            from <= i < ks.len() ==> is_moved(
                assemble_steps(
                    claim_views(claims).skip(from),
                    part_records(table),
                    sums[from],
                    fsync,
                ),
                table[ks[i]],
                claims[i].blob_id@,
            ),
    decreases claims.len() - from,
{
    let views = claim_views(claims);
    let records = part_records(table);
    lemma_sums_grow(table, ks, sums, 0, from);
    lemma_sums_grow(table, ks, sums, from, claims.len() as int);
    if from < claims.len() {
        let k = ks[from];
        lemma_all_moved(claims, table, ks, sums, from + 1, fsync);
        lemma_is_claimed(claims[from], table, k);
        let now = views.skip(from);
        assert(now[0] == claims[from]@);
        assert(now.skip(1) =~= views.skip(from + 1));
        let a = move_steps(table[k]@, claims[from].blob_id@, fsync);
        let b = assemble_steps(views.skip(from + 1), records, sums[from + 1], fsync);
        assert(assemble_steps(now, records, sums[from], fsync) == a + b);
        assert(is_moved(a, table[k], claims[from].blob_id@)) by {
            assert(a[0] is Do && a[1] is Do);
            assert(a.contains(a[0]) && a.contains(a[1]));
        }
        assert forall|i: int|
            #![trigger ks[i]]
            from <= i < ks.len() implies is_moved(a + b, table[ks[i]], claims[i].blob_id@) by {
            lemma_moved_later(a, b, table[ks[i]], claims[i].blob_id@);
        }
    }
}

proof fn lemma_sums_grow(table: Seq<PartRefFile>, ks: Seq<int>, sums: Seq<int>, i: int, j: int)
    requires
        are_sums(table, ks, sums),
        0 <= i <= j <= ks.len(),
    ensures
        sums[i] <= sums[j],
    decreases j - i,
{
    if i < j {
        lemma_sums_grow(table, ks, sums, i, j - 1);
        let k = ks[j - 1];
        assert(sums[j - 1 + 1] == sums[j - 1] + table[k].size);
    }
}

/// The version that a completion makes: its parts are the claimed ones in the order of the claims,
/// its length is the sum of theirs, and its entity tag is made of their digests and their number.
pub open spec fn is_completed_version(
    a: Assembling,
    table: Seq<PartRefFile>,
    ks: Seq<int>,
    sums: Seq<int>,
    joined: Seq<Seq<u8>>,
    m: ManifestView,
) -> bool {
    &&& m.key == a.upload.key@
    &&& a.upload.content_type@.len() > 0 ==> m.content_type == a.upload.content_type@
    &&& a.upload.content_type@.len() == 0 ==> m.content_type == "application/octet-stream"@
    &&& m.user_metadata == pairs(a.upload.user_metadata@)
    &&& m.last_modified == a.now
    &&& m.created == a.now
    &&& m.content_disposition.len() == 0
    &&& m.content_encoding.len() == 0
    &&& m.cache_control.len() == 0
    &&& m.commit_nonce == a.ids.nonce@
    &&& m.content_length == sums[ks.len() as int]
    &&& m.etag == seq!['"'] + hex_text(md5_of(joined[ks.len() as int])) + seq!['-'] + decimal(
        ks.len(),
    ) + seq!['"']
    &&& m.parts.len() == ks.len()
    &&& forall|i: int|
        #![trigger m.parts[i]]
        0 <= i < ks.len() ==> {
            &&& m.parts[i].part_number == a.claims@[i].part_number
            &&& m.parts[i].blob_id == a.claims@[i].blob_id@
            &&& m.parts[i].size == table[ks[i]].size
            &&& m.parts[i].md5_hex == table[ks[i]].md5_hex@
        }
}

/// The manifest of a new version is written to the staging area.
pub open spec fn stages(
    steps: Seq<StepView>,
    id: Seq<char>,
    m: ManifestView,
    fsync: bool,
) -> bool {
    steps.contains(
        StepView::Do {
            call: CallView::WriteManifest {
                at: Place::Staged { name: id + ".manifest"@ },
                manifest: m,
                sync: fsync,
            },
            rule: must(Report::Io),
        },
    )
}

proof fn lemma_made(
    claims: Seq<Claim>,
    table: Seq<PartRefFile>,
    ks: Seq<int>,
    sums: Seq<int>,
    joined: Seq<Seq<u8>>,
    n: int,
)
    requires
        ascending(part_records(table)),
        are_claimed(claims, table, ks),
        are_sums(table, ks, sums),
        are_joined(table, ks, joined),
        0 <= n <= claims.len(),
    ensures
        total_size(assembled(claim_views(claims), part_records(table)).take(n)) == sums[n],
        joined_digests(assembled(claim_views(claims), part_records(table)).take(n)) == joined[n],
    decreases n,
{
    let parts = assembled(claim_views(claims), part_records(table));
    if n > 0 {
        lemma_made(claims, table, ks, sums, joined, n - 1);
        lemma_is_claimed(claims[n - 1], table, ks[n - 1]);
        assert(parts.take(n).drop_last() =~= parts.take(n - 1));
        assert(parts.take(n).last() == parts[n - 1]);
        assert(claim_views(claims)[n - 1] == claims[n - 1]@);
        assert(sums[n - 1 + 1] == sums[n - 1] + table[ks[n - 1]].size);
        assert(joined[n - 1 + 1] == joined[n - 1] + hex_bytes(table[ks[n - 1]].md5_hex@));
    } else {
        assert(joined[0] =~= Seq::empty());
    }
}

/// Where every claim has its record, and the sizes add up to what a length can be, the object is
/// assembled: the blobs of the records are moved to the ids of the claims, and the new version is
/// staged.
pub proof fn claimed_parts_are_assembled(
    a: Assembling,
    env: &Env,
    refs: Result<Vec<RefEntry>, IoError>,
    table: Vec<PartRefFile>,
    ks: Seq<int>,
    sums: Seq<int>,
    joined: Seq<Seq<u8>>,
    r: Result<(Option<Publishing>, Plan), StorageError>,
)
    requires
        call_ensures(read_part_refs, (refs,), Ok::<Vec<PartRefFile>, StorageError>(table)),
        call_ensures(Assembling::assemble, (a, env, refs), r),
        are_claimed(a.claims@, table@, ks),
        are_sums(table@, ks, sums),
        are_joined(table@, ks, joined),
        sums[ks.len() as int] <= u64::MAX,
    ensures
        r matches Ok((Some(publishing), plan)) && publishing.key@ == a.upload.key@
            && publishing.ids == a.ids && exists|m: ManifestView|
            #![trigger stages(plan@, a.ids.staged@, m, env.fsync)]
            is_completed_version(a, table@, ks, sums, joined, m) && stages(
                plan@,
                a.ids.staged@,
                m,
                env.fsync,
            ) && publishing.etag@ == m.etag && publishing.after@.last() == (StepView::Finish {
                outcome: OutcomeView::Etag { etag: m.etag },
            }),
        forall|i: int|
            #![trigger ks[i]]
            0 <= i < ks.len() ==> is_moved(
                r->Ok_0.1@,
                table@[ks[i]],
                a.claims@[i].blob_id@,
            ),
{
    let claims = claim_views(a.claims@);
    let records = part_records(table@);
    let n = a.claims@.len() as int;
    let parts = assembled(claims, records);
    let m = a.manifest(records);
    assert(ascending(records));
    lemma_made(a.claims@, table@, ks, sums, joined, n);
    assert(parts.take(n) =~= parts);
    assert forall|i: int| 0 <= i < claims.len() implies (claimed_part(
        #[trigger] claims[i],
        records,
    ) matches Some(p) && is_hex_text(p.md5_hex)) by {
        lemma_is_claimed(a.claims@[i], table@, ks[i]);
    }
    assert(claims_hold(claims, records));
    lemma_all_moved(a.claims@, table@, ks, sums, 0, env.fsync);
    assert(claims.skip(0) =~= claims);
    let front = assemble_steps(claims, records, 0, env.fsync);
    let back = stage_steps(m, a.ids.staged_name(), env.fsync);
    let plan = r->Ok_0.1;
    assert(plan@ == front + back);
    assert((front + back)[front.len() as int] == back[0]);
    assert forall|i: int| #![trigger ks[i]] 0 <= i < ks.len() implies is_moved(
        plan@,
        table@[ks[i]],
        a.claims@[i].blob_id@,
    ) by {
        lemma_moved_later(front, back, table@[ks[i]], a.claims@[i].blob_id@);
    }
    assert(is_completed_version(a, table@, ks, sums, joined, m)) by {
        reveal_strlit("-");
        assert("-"@ =~= seq!['-']);
        assert(m.etag =~= seq!['"'] + hex_text(md5_of(joined[ks.len() as int])) + seq!['-']
            + decimal(ks.len()) + seq!['"']);
        lemma_sums_grow(table@, ks, sums, 0, n);
        assert forall|i: int| #![trigger m.parts[i]] 0 <= i < ks.len() implies (m.parts[i].part_number
            == a.claims@[i].part_number && m.parts[i].blob_id == a.claims@[i].blob_id@
            && m.parts[i].size == table@[ks[i]].size && m.parts[i].md5_hex
            == table@[ks[i]].md5_hex@) by {
            lemma_is_claimed(a.claims@[i], table@, ks[i]);
            lemma_number_kept(a.claims@[i], table@[ks[i]]);
            assert(claims[i] == a.claims@[i]@);
            assert(m.parts[i].part_number == a.claims@[i].part_number as u32);
        }
    }
    assert(stages(plan@, a.ids.staged@, m, env.fsync));
}

/// An object is assembled only where every claim has its record.
pub proof fn assembled_parts_are_claimed(
    a: Assembling,
    env: &Env,
    refs: Result<Vec<RefEntry>, IoError>,
    table: Vec<PartRefFile>,
    r: Result<(Option<Publishing>, Plan), StorageError>,
    i: int,
)
    requires
        call_ensures(read_part_refs, (refs,), Ok::<Vec<PartRefFile>, StorageError>(table)),
        call_ensures(Assembling::assemble, (a, env, refs), r),
        r matches Ok((Some(_), _)),
        0 <= i < a.claims@.len(),
    ensures
        exists|k: int| 0 <= k < table@.len() && is_claimed(a.claims@[i], #[trigger] table@[k]),
{
    let claims = claim_views(a.claims@);
    let records = part_records(table@);
    let c = a.claims@[i];
    assert(claims[i] == c@);
    assert(claimed_part(claims[i], records) is Some);
    let k = lemma_part_index(records, c.part_number as int);
    assert(records[k] == table@[k]@);
    let x = lemma_unquoted_front(c.etag@);
    let rest = c.etag@.skip(x);
    let y = lemma_unquoted_back(rest);
    let t = table@[k].md5_hex@;
    assert(t == rest.take(y));
    assert(is_inner_text(c.etag@, t, x)) by {
        assert forall|j: int| 0 <= j < x || x + t.len() <= j < c.etag@.len() implies
            #[trigger] c.etag@[j] == '"' by {
            if j >= x {
                assert(rest[j - x] == c.etag@[j]);
            }
        }
        assert(c.etag@.subrange(x, x + t.len()) =~= t);
    }
    assert(is_claimed(c, table@[k]));
}

} // verus!
