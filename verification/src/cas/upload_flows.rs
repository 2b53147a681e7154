//! Uploads in parts from beginning to end, and what later requests see of them.

use vstd::prelude::*;
use crate::cas::complete::{
    after_complete, assemble_steps, assembled, claim_views, claimed_part, claims_error, claims_hold,
    composite_tag, joined_digests, move_steps, total_size, Assembling, ClaimView,
};
use crate::cas::flows::{
    ending, is_free, lemma_bucket_path, lemma_kept, lemma_not_mine, lemma_published, lemma_reads_as,
    lemma_reaches_split, lemma_same_object, lemma_sound_alike, only_refs, reads_as, same_object,
    sized, with_blob,
};

use crate::cas::model::{
    commit_head, committable, complete, effect, exclusive, harmless, has_to_succeed, journal_of,
    keeps_blobs, left_behind, lemma_head, lemma_reclaim_steps, lemma_reclaimed, lemma_run_concat,
    lemma_run_keeps, lemma_run_prefix, live_of, object_bytes, old_blobs, reaches, run, sound,
    step_effect, undone, unowned, with_live, Disk, RefContent,
};
use crate::cas::objects::{commit_steps, parts_ok, stage_steps};
use crate::cas::parts::{
    ascending, last_record_counts, lemma_with_part, part_at, part_table, part_table_is_ordered,
    recorded_part, ref_name, ref_tmp_name, stored_table, table_blobs, with_part, PARTS_DIR,
};
use crate::cas::records::PartRefFileView;
use crate::cas::store::{quoted, reclaim_steps, stored_type};
use crate::cas::upload_model::{
    completed_object_is_apart_from_its_upload, failed_assembly_is_undone,
    failed_completion_keeps_the_upload, fresh_ids, is_hex_and_fits, is_move, is_removal,
    lemma_assembly_moves, lemma_claims_hold, lemma_part_at, parts_apart, parts_there,
    preparing_steps,
};
use crate::cas::uploads::{
    abort_steps, by_signed_number, install_steps, kept_steps, listed_parts, superseded, PartStored,
};
use crate::manifest::ManifestPartView;
use crate::numbers::{
    parsed_unsigned, part_name, part_name_spells_its_number, part_names_differ,
};
use crate::outside::{hex_bytes, hex_digit, hex_text, hex_value, is_canonical_uuid, is_hex_text, md5_of};
use crate::plan::call::{CallView, OutcomeView, QuestionView, RefEntry, StoredRef};
use crate::plan::place::{bucket_root, Place};
use crate::plan::runner::{may, StepView};
use crate::reader::body_from;
use crate::text::{has_text, stands_at};
use crate::types::{is_bucket_name, IoError, StorageError};

verus! {

/// What is recorded of the parts of a table is true of their blobs.
pub open spec fn true_records(d: Disk, table: Seq<PartRefFileView>) -> bool {
    forall|i: int|
        0 <= i < table.len() ==> {
            let p = #[trigger] table[i];
            &&& d.blobs.contains_key(p.blob_id)
            &&& d.blobs[p.blob_id].len() == p.size
            &&& p.md5_hex == hex_text(md5_of(d.blobs[p.blob_id]))
        }
}

/// No two parts of a table have the same blob.
pub open spec fn own_blobs(table: Seq<PartRefFileView>) -> bool {
    forall|i: int, j: int|
        0 <= i < j < table.len() ==> (#[trigger] table[i]).blob_id != (#[trigger] table[j]).blob_id
}

/// The bytes of the claimed parts.
pub open spec fn claimed_bodies(
    d: Disk,
    claims: Seq<ClaimView>,
    table: Seq<PartRefFileView>,
) -> Seq<Seq<u8>> {
    Seq::new(claims.len(), |i: int| d.blobs[claimed_part(claims[i], table)->0.blob_id])
}

/// The digests of the bodies, one after the other.
pub open spec fn digests_of(bodies: Seq<Seq<u8>>) -> Seq<u8>
    decreases bodies.len(),
{
    if bodies.len() == 0 {
        Seq::empty()
    } else {
        digests_of(bodies.drop_last()) + md5_of(bodies.last())
    }
}

/// The entity tag of an object that was uploaded in parts with these bytes.
pub open spec fn bodies_tag(bodies: Seq<Seq<u8>>) -> Seq<char> {
    composite_tag(md5_of(digests_of(bodies)), bodies.len())
}

/// The claims of a completion ascend, and every one has its part.
pub open spec fn is_valid(claims: Seq<ClaimView>, table: Seq<PartRefFileView>) -> bool {
    claims_error(claims) is None && claims_hold(claims, table)
}

/// The steps of a completion from the moment the part records were read.
pub open spec fn complete_run(
    d: Disk,
    done_by: Assembling,
    table: Seq<PartRefFileView>,
    fsync: bool,
) -> Seq<StepView> {
    let m = done_by.manifest(table);
    assemble_steps(claim_views(done_by.claims@), table, 0, fsync) + (stage_steps(
        m,
        done_by.ids.staged_name(),
        fsync,
    ) + commit_steps(
        m.key,
        done_by.ids.staged_name(),
        done_by.ids.journal_name(),
        done_by.ids.journal_tmp_name(),
        journal_of(d, m.key, m),
        fsync,
    ) + after_complete(done_by.upload_id@, m.etag, fsync))
}

/// The ids that the blobs of a completed object get are free.
pub open spec fn free_ids(
    d: Disk,
    claims: Seq<ClaimView>,
    table: Seq<PartRefFileView>,
) -> bool {
    &&& fresh_ids(d, claims, table)
    &&& forall|i: int| 0 <= i < claims.len() ==> is_free(d, (#[trigger] claims[i]).blob_id)
}

/// Hexadecimal text stands for the bytes that it was made of.
pub proof fn hex_text_stands_for_its_bytes(data: Seq<u8>)
    ensures
        is_hex_text(hex_text(data)),
        hex_bytes(hex_text(data)) == data,
{
    let text = hex_text(data);
    assert forall|n: int| 0 <= n < 16 implies hex_value(#[trigger] hex_digit(n)) == Some(n) by {}
    assert forall|i: int| 0 <= i < text.len() implies crate::outside::is_hex(#[trigger] text[i]) by {
        let n = if i % 2 == 0 {
            data[i / 2] as int / 16
        } else {
            data[i / 2] as int % 16
        };
        assert(text[i] == hex_digit(n));
        assert(0 <= n < 16);
    }
    assert forall|i: int| 0 <= i < data.len() implies hex_bytes(text)[i] == data[i] by {
        let high = data[i] as int / 16;
        let low = data[i] as int % 16;
        assert((2 * i) / 2 == i && (2 * i) % 2 == 0);
        assert((2 * i + 1) / 2 == i && (2 * i + 1) % 2 == 1);
        assert(text[2 * i] == hex_digit(high));
        assert(text[2 * i + 1] == hex_digit(low));
        assert(0 <= high < 16 && 0 <= low < 16);
        assert(high * 16 + low == data[i]);
    }
    assert(hex_bytes(text) =~= data);
}

/// The last body comes last.
proof fn lemma_body_last(contents: Seq<Seq<u8>>, i: int)
    requires
        0 <= i < contents.len(),
    ensures
        body_from(contents, i) == body_from(contents.drop_last(), i) + contents.last(),
    decreases contents.len() - i,
{
    let front = contents.drop_last();
    if i < contents.len() - 1 {
        lemma_body_last(contents, i + 1);
        assert(front[i] == contents[i]);
        assert(body_from(contents, i) =~= body_from(front, i) + contents.last());
    } else {
        assert(body_from(contents, i + 1) =~= Seq::empty());
        assert(body_from(front, i) =~= Seq::empty());
        assert(body_from(contents, i) =~= contents.last());
    }
}

/// The sizes and the digests of parts that are recorded truly are those of their bodies.
proof fn lemma_recorded_truly(parts: Seq<ManifestPartView>, bodies: Seq<Seq<u8>>)
    requires
        parts.len() == bodies.len(),
        forall|i: int|
            0 <= i < parts.len() ==> (#[trigger] parts[i]).size == bodies[i].len()
                && parts[i].md5_hex == hex_text(md5_of(bodies[i])),
    ensures
        total_size(parts) == body_from(bodies, 0).len(),
        joined_digests(parts) == digests_of(bodies),
    decreases parts.len(),
{
    if parts.len() > 0 {
        let front = parts.drop_last();
        let early = bodies.drop_last();
        assert forall|i: int| 0 <= i < front.len() implies (#[trigger] front[i]).size
            == early[i].len() && front[i].md5_hex == hex_text(md5_of(early[i])) by {
            assert(front[i] == parts[i]);
        }
        lemma_recorded_truly(front, early);
        lemma_body_last(bodies, 0);
        let n = parts.len() - 1;
        assert(parts[n] == parts.last());
        hex_text_stands_for_its_bytes(md5_of(bodies[n]));
    } else {
        assert(body_from(bodies, 0) =~= Seq::empty());
    }
}

/// The claims are for parts that are there, each for one of its own.
proof fn lemma_claims_there(d: Disk, claims: Seq<ClaimView>, table: Seq<PartRefFileView>)
    requires
        is_valid(claims, table),
        true_records(d, table),
        own_blobs(table),
    ensures
        parts_there(d, claims, table),
        forall|i: int|
            0 <= i < claims.len() ==> {
                let p = claimed_part(#[trigger] claims[i], table)->0;
                d.blobs[p.blob_id].len() == p.size && p.md5_hex == hex_text(
                    md5_of(d.blobs[p.blob_id]),
                )
            },
{
    assert forall|i: int| 0 <= i < claims.len() implies {
        let p = claimed_part(#[trigger] claims[i], table)->0;
        &&& d.blobs.contains_key(p.blob_id)
        &&& d.blobs[p.blob_id].len() == p.size
        &&& p.md5_hex == hex_text(md5_of(d.blobs[p.blob_id]))
    } by {
        lemma_claim_index(claims, table, i);
    }
    assert forall|i: int, j: int| 0 <= i < j < claims.len() implies claimed_part(
        #[trigger] claims[i],
        table,
    )->0.blob_id != claimed_part(#[trigger] claims[j], table)->0.blob_id by {
        lemma_claims_ascend(claims, i, j);
        lemma_claim_index(claims, table, i);
        lemma_claim_index(claims, table, j);
        let a = choose|k: int|
            0 <= k < table.len() && #[trigger] table[k] == claimed_part(claims[i], table)->0;
        let b = choose|k: int|
            0 <= k < table.len() && #[trigger] table[k] == claimed_part(claims[j], table)->0;
        assert(table[a].part_number != table[b].part_number);
        if a < b {
            assert(table[a].blob_id != table[b].blob_id);
        } else {
            assert(table[b].blob_id != table[a].blob_id);
        }
    }
}

/// The numbers of valid claims ascend.
proof fn lemma_claims_ascend(claims: Seq<ClaimView>, i: int, j: int)
    requires
        claims_error(claims) is None,
        0 <= i < j < claims.len(),
    ensures
        claims[i].part_number < claims[j].part_number,
    decreases j,
{
    assert(claims[j].part_number > claims[j - 1].part_number);
    if i < j - 1 {
        lemma_claims_ascend(claims, i, j - 1);
    }
}

/// The part of a claim stands in the table under the number of the claim.
proof fn lemma_claim_index(claims: Seq<ClaimView>, table: Seq<PartRefFileView>, i: int)
    requires
        claims_hold(claims, table),
        0 <= i < claims.len(),
    ensures
        claimed_part(claims[i], table) is Some,
        claimed_part(claims[i], table)->0.part_number == claims[i].part_number,
        exists|k: int|
            0 <= k < table.len() && #[trigger] table[k] == claimed_part(claims[i], table)->0,
{
    assert(claimed_part(claims[i], table) is Some);
    lemma_part_number(table, claims[i].part_number as int);
    lemma_part_at(table, claims[i].part_number as int);
}

/// The part with a number has that number.
proof fn lemma_part_number(table: Seq<PartRefFileView>, n: int)
    ensures
        part_at(table, n) matches Some(p) ==> p.part_number == n,
    decreases table.len(),
{
    if table.len() > 0 {
        lemma_part_number(table.drop_last(), n);
    }
}

/// The bucket after a completion.
pub open spec fn completed_disk(
    d: Disk,
    done_by: Assembling,
    table: Seq<PartRefFileView>,
    fsync: bool,
    done: Seq<bool>,
) -> Disk {
    run(d, complete_run(d, done_by, table, fsync), done)
}

/// What a completion does to the bucket.
proof fn lemma_completed(
    d: Disk,
    done_by: Assembling,
    table: Seq<PartRefFileView>,
    fsync: bool,
    done: Seq<bool>,
)
    requires
        sound(d),
        parts_apart(d, table),
        true_records(d, table),
        own_blobs(table),
        is_valid(claim_views(done_by.claims@), table),
        free_ids(d, claim_views(done_by.claims@), table),
        live_of(d, done_by.upload@.key) matches Some(old_version) ==> old_version.commit_nonce
            != done_by.ids.nonce@,
        ({
            let steps = complete_run(d, done_by, table, fsync);
            reaches(steps, done, steps.len() as int) && done.len() == steps.len()
        }),
    ensures
        sound(completed_disk(d, done_by, table, fsync, done)),
        completed_disk(d, done_by, table, fsync, done).live == d.live.insert(
            done_by.upload@.key,
            done_by.manifest(table),
        ),
        keeps_blobs(
            d,
            completed_disk(d, done_by, table, fsync, done),
            table_blobs(table) + old_blobs(d, done_by.upload@.key),
        ),
        forall|i: int|
            0 <= i < done_by.claims@.len() ==> ({
                let id = (#[trigger] claim_views(done_by.claims@)[i]).blob_id;
                let x = completed_disk(d, done_by, table, fsync, done);
                x.blobs.contains_key(id) && x.blobs[id] == claimed_bodies(
                    d,
                    claim_views(done_by.claims@),
                    table,
                )[i]
            }),
        (forall|i: int| 0 <= i < done.len() ==> done[i]) ==> forall|b: Seq<char>|
            old_blobs(d, done_by.upload@.key).contains(b) && is_canonical_uuid(b) ==> !(
            #[trigger] completed_disk(d, done_by, table, fsync, done).blobs.contains_key(b)),
{
    let claims = claim_views(done_by.claims@);
    let m = done_by.manifest(table);
    let key = m.key;
    let staged = done_by.ids.staged_name();
    let name = done_by.ids.journal_name();
    let tmp = done_by.ids.journal_tmp_name();
    let journal = journal_of(d, key, m);
    let after = after_complete(done_by.upload_id@, m.etag, fsync);
    let assemble = assemble_steps(claims, table, 0, fsync);
    let tail = stage_steps(m, staged, fsync) + commit_steps(key, staged, name, tmp, journal, fsync)
        + after;
    lemma_claims_there(d, claims, table);
    lemma_claims_hold(claims, table, 0);
    assert(claims.skip(0) =~= claims);
    assert(assembled(claims, table).take(0) =~= Seq::empty());
    lemma_reaches_split(assemble, tail, done);
    lemma_run_concat(d, assemble, tail, done);
    lemma_assembly_moves(d, claims, table, 0, fsync, done);
    let y = run(d, assemble, done);
    lemma_after_assembly(d, y, claims, table);
    assert(committable(y, key, m)) by {
        assert forall|b: Seq<char>| #[trigger] m.blobs().contains(b) implies y.blobs.contains_key(b)
            && unowned(y, b) by {
            let i = choose|i: int| 0 <= i < m.blobs().len() && m.blobs()[i] == b;
            assert(claims[i].blob_id == b);
            assert(is_free(d, claims[i].blob_id));
        }
    }
    assert(journal_of(y, key, m) == journal);
    assert forall|i: int| 0 <= i < after.len() implies only_refs(#[trigger] after[i]) by {}
    let rest = done.skip(assemble.len() as int);
    lemma_published(y, m, staged, name, tmp, fsync, after, rest);
    let x = run(y, tail, rest);
    assert(x == completed_disk(d, done_by, table, fsync, done));
    let gone = table_blobs(table) + old_blobs(d, key);
    assert(old_blobs(y, key) == old_blobs(d, key));
    assert forall|b: Seq<char>| d.blobs.contains_key(b) && !gone.contains(b) implies
        #[trigger] x.blobs.contains_key(b) && x.blobs[b] == d.blobs[b] by {
        lemma_in_sum(table_blobs(table), old_blobs(d, key), b);
        assert(y.blobs.contains_key(b));
        lemma_kept(y, x, old_blobs(y, key), b);
    }
    assert forall|i: int| 0 <= i < claims.len() implies x.blobs.contains_key(
        (#[trigger] claims[i]).blob_id,
    ) && x.blobs[claims[i].blob_id] == claimed_bodies(d, claims, table)[i] by {
        let b = claims[i].blob_id;
        assert(is_free(d, b));
        assert(!old_blobs(d, key).contains(b)) by {
            if old_blobs(d, key).contains(b) {
                assert(d.live[key].blobs().contains(b));
            }
        }
        lemma_kept(y, x, old_blobs(y, key), b);
    }
    if forall|i: int| 0 <= i < done.len() ==> done[i] {
        assert forall|i: int| 0 <= i < rest.len() implies rest[i] by {
            assert(rest[i] == done[assemble.len() + i]);
        }
    }
}

pub proof fn lemma_in_sum(a: Seq<Seq<char>>, b: Seq<Seq<char>>, x: Seq<char>)
    ensures
        (a + b).contains(x) <==> a.contains(x) || b.contains(x),
{
    if a.contains(x) {
        let i = choose|i: int| 0 <= i < a.len() && a[i] == x;
        assert((a + b)[i] == x);
    }
    if b.contains(x) {
        let i = choose|i: int| 0 <= i < b.len() && b[i] == x;
        assert((a + b)[a.len() + i] == x);
    }
}

/// Moving the blobs of parts takes nothing from a live object.
proof fn lemma_after_assembly(
    d: Disk,
    y: Disk,
    claims: Seq<ClaimView>,
    table: Seq<PartRefFileView>,
)
    requires
        sound(d),
        parts_apart(d, table),
        y.live == d.live,
        y.journals == d.journals,
        forall|b: Seq<char>|
            d.blobs.contains_key(b) && !table_blobs(table).contains(b)
                ==> #[trigger] y.blobs.contains_key(b) && y.blobs[b] == d.blobs[b],
    ensures
        sound(y),
{
    assert(complete(y)) by {
        assert forall|key: Seq<char>, b: Seq<char>|
            y.live.contains_key(key) && #[trigger] y.live[key].blobs().contains(b) implies y.blobs.contains_key(
        b) by {
            assert(d.live[key].blobs().contains(b));
            assert(d.blobs.contains_key(b));
        }
    }
    assert(exclusive(y));
    assert forall|n: Seq<char>| y.journals.contains_key(n) implies harmless(
        y,
        #[trigger] y.journals[n],
    ) by {
        assert(harmless(d, d.journals[n]));
    }
}

/// An object that was uploaded in parts is read back: its bytes are those of the claimed parts, one
/// after the other, its length is theirs, and its entity tag is made of their digests and their
/// number. No other object changes. Where every step succeeds, no blob of the version before it is
/// left.
pub proof fn completed_object_is_read_back(
    root: Seq<char>,
    bucket: Seq<char>,
    d: Disk,
    done_by: Assembling,
    table: Seq<PartRefFileView>,
    fsync: bool,
    done: Seq<bool>,
)
    requires
        is_bucket_name(bucket),
        sound(d),
        parts_apart(d, table),
        true_records(d, table),
        own_blobs(table),
        is_valid(claim_views(done_by.claims@), table),
        free_ids(d, claim_views(done_by.claims@), table),
        live_of(d, done_by.upload@.key) matches Some(old_version) ==> old_version.commit_nonce
            != done_by.ids.nonce@,
        ({
            let steps = complete_run(d, done_by, table, fsync);
            reaches(steps, done, steps.len() as int) && done.len() == steps.len()
        }),
    ensures
        ({
            let path = bucket_root(root, bucket);
            let steps = complete_run(d, done_by, table, fsync);
            let x = run(d, steps, done);
            let m = done_by.manifest(table);
            let bodies = claimed_bodies(d, claim_views(done_by.claims@), table);
            &&& ending(steps) == Some(
                Ok::<OutcomeView, StorageError>(OutcomeView::Etag { etag: bodies_tag(bodies) }),
            )
            &&& sound(x)
            &&& reads_as(path, x, done_by.upload@.key, m, body_from(bodies, 0))
            &&& m.etag == bodies_tag(bodies)
            &&& m.content_length == body_from(bodies, 0).len()
            &&& m.content_type == stored_type(done_by.upload@.content_type)
            &&& done_by.upload@.content_type.len() > 0 ==> m.content_type == done_by.upload@.content_type
            &&& done_by.upload@.content_type.len() == 0 ==> m.content_type == "application/octet-stream"@
            &&& m.user_metadata == done_by.upload@.user_metadata
            &&& forall|other: Seq<char>|
                other != done_by.upload@.key ==> #[trigger] same_object(path, d, x, other)
            &&& (forall|i: int| 0 <= i < done.len() ==> done[i]) ==> forall|b: Seq<char>|
                old_blobs(d, done_by.upload@.key).contains(b) && is_canonical_uuid(b)
                    ==> !(#[trigger] x.blobs.contains_key(b))
        }),
{
    let path = bucket_root(root, bucket);
    let claims = claim_views(done_by.claims@);
    let steps = complete_run(d, done_by, table, fsync);
    let x = run(d, steps, done);
    let m = done_by.manifest(table);
    let key = m.key;
    let bodies = claimed_bodies(d, claims, table);
    lemma_bucket_path(root, bucket);
    lemma_completed(d, done_by, table, fsync, done);
    lemma_claims_there(d, claims, table);
    lemma_recorded_truly(m.parts, bodies);
    assert(steps.last() == after_complete(done_by.upload_id@, m.etag, fsync).last());
    assert(parts_ok(m.parts)) by {
        assert forall|i: int| 0 <= i < m.parts.len() implies is_canonical_uuid(
            (#[trigger] m.parts[i]).blob_id,
        ) by {
            assert(is_free(d, claims[i].blob_id));
        }
    }
    assert(sized(x, m)) by {
        assert forall|i: int| 0 <= i < m.parts.len() implies x.blobs.contains_key(
            (#[trigger] m.parts[i]).blob_id,
        ) && x.blobs[m.parts[i].blob_id].len() == m.parts[i].size by {
            assert(m.parts[i].blob_id == claims[i].blob_id);
        }
    }
    lemma_reads_as(path, x, key, m);
    assert(object_bytes(x, m) == body_from(bodies, 0)) by {
        let contents = Seq::new(m.parts.len(), |i: int| x.blobs[m.parts[i].blob_id]);
        assert forall|i: int| 0 <= i < contents.len() implies contents[i] == bodies[i] by {
            assert(m.parts[i].blob_id == claims[i].blob_id);
        }
        assert(contents =~= bodies);
    }
    let gone = table_blobs(table) + old_blobs(d, key);
    assert forall|other: Seq<char>| other != key implies #[trigger] same_object(
        path,
        d,
        x,
        other,
    ) by {
        lemma_not_mine(d, key, other);
        assert forall|b: Seq<char>|
            d.live.contains_key(other) && #[trigger] d.live[other].blobs().contains(b) implies !gone.contains(
        b) by {
            lemma_in_sum(table_blobs(table), old_blobs(d, key), b);
        }
        lemma_same_object(path, d, x, other, gone);
    }
}

/// No live version has this blob.
pub open spec fn is_apart(d: Disk, b: Seq<char>) -> bool {
    forall|key: Seq<char>| d.live.contains_key(key) ==> !(#[trigger] d.live[key].blobs().contains(b))
}

/// The blobs that giving up an upload removes.
pub open spec fn given_up_blobs(refs: Result<Vec<RefEntry>, IoError>) -> Seq<Seq<char>> {
    match stored_table(refs) {
        Ok(table) => table_blobs(table),
        Err(_) => Seq::empty(),
    }
}

/// Giving up an upload removes the blobs that its records name and no others.
proof fn lemma_given_up(
    d: Disk,
    id: Seq<char>,
    refs: Result<Vec<RefEntry>, IoError>,
    done: Seq<bool>,
)
    ensures
        run(d, abort_steps(id, refs), done).live == d.live,
        keeps_blobs(d, run(d, abort_steps(id, refs), done), given_up_blobs(refs)),
{
    let steps = abort_steps(id, refs);
    let gone = given_up_blobs(refs);
    let reclaim = reclaim_steps(gone, may());
    lemma_reclaim_steps(gone, may());
    let keep = |z: Disk| z.live == d.live && keeps_blobs(d, z, gone);
    assert forall|z: Disk, i: int| 0 <= i < steps.len() && #[trigger] keep(z) implies keep(
        step_effect(z, #[trigger] steps[i]),
    ) by {
        let v = step_effect(z, steps[i]);
        if i < reclaim.len() {
            assert(steps[i] == reclaim[i]);
        }
        assert forall|b: Seq<char>| d.blobs.contains_key(b) && !gone.contains(b) implies
            #[trigger] v.blobs.contains_key(b) && v.blobs[b] == d.blobs[b] by {
            lemma_kept(d, z, gone, b);
        }
    }
    lemma_run_keeps(d, steps, done, keep);
    assert(keep(run(d, steps, done)));
}

/// Giving up an upload takes nothing from an object whose blobs its records do not name.
proof fn lemma_objects_stay(path: Seq<char>, d: Disk, x: Disk, gone: Seq<Seq<char>>)
    requires
        complete(d),
        x.live == d.live,
        keeps_blobs(d, x, gone),
        forall|key: Seq<char>, b: Seq<char>|
            d.live.contains_key(key) && #[trigger] d.live[key].blobs().contains(b)
                ==> !gone.contains(b),
    ensures
        forall|key: Seq<char>| #[trigger] same_object(path, d, x, key),
        forall|key: Seq<char>, b: Seq<char>|
            d.live.contains_key(key) && #[trigger] d.live[key].blobs().contains(b)
                ==> x.blobs.contains_key(b) && x.blobs[b] == d.blobs[b],
{
    assert forall|key: Seq<char>, b: Seq<char>|
        d.live.contains_key(key) && #[trigger] d.live[key].blobs().contains(b) implies x.blobs.contains_key(
    b) && x.blobs[b] == d.blobs[b] by {
        assert(!gone.contains(b));
        assert(d.blobs.contains_key(b));
        lemma_kept(d, x, gone, b);
    }
    assert forall|key: Seq<char>| #[trigger] same_object(path, d, x, key) by {
        lemma_same_object(path, d, x, key, gone);
    }
}

/// What is left of an upload after its completion, where its directory could not be removed, is
/// harmless: to give it up later takes no blob from the completed object or from any other, and
/// every object is answered as before.
pub proof fn completed_object_outlives_its_upload(
    root: Seq<char>,
    bucket: Seq<char>,
    d: Disk,
    done_by: Assembling,
    table: Seq<PartRefFileView>,
    fsync: bool,
    done: Seq<bool>,
    refs: Result<Vec<RefEntry>, IoError>,
    abort_done: Seq<bool>,
)
    requires
        is_bucket_name(bucket),
        sound(d),
        parts_apart(d, table),
        true_records(d, table),
        own_blobs(table),
        is_valid(claim_views(done_by.claims@), table),
        free_ids(d, claim_views(done_by.claims@), table),
        live_of(d, done_by.upload@.key) matches Some(old_version) ==> old_version.commit_nonce
            != done_by.ids.nonce@,
        ({
            let steps = complete_run(d, done_by, table, fsync);
            reaches(steps, done, steps.len() as int) && done.len() == steps.len()
        }),
        stored_table(refs) matches Ok(left) ==> forall|i: int|
            0 <= i < left.len() ==> table.contains(#[trigger] left[i]),
    ensures
        ({
            let path = bucket_root(root, bucket);
            let x = run(d, complete_run(d, done_by, table, fsync), done);
            let y = run(x, abort_steps(done_by.upload_id@, refs), abort_done);
            let m = done_by.manifest(table);
            let bodies = claimed_bodies(d, claim_views(done_by.claims@), table);
            &&& y.live == x.live
            &&& reads_as(path, x, m.key, m, body_from(bodies, 0))
            &&& forall|key: Seq<char>| #[trigger] same_object(path, x, y, key)
            &&& forall|key: Seq<char>, b: Seq<char>|
                x.live.contains_key(key) && #[trigger] x.live[key].blobs().contains(b)
                    ==> y.blobs.contains_key(b) && y.blobs[b] == x.blobs[b]
        }),
{
    let path = bucket_root(root, bucket);
    let claims = claim_views(done_by.claims@);
    let m = done_by.manifest(table);
    let x = run(d, complete_run(d, done_by, table, fsync), done);
    completed_object_is_read_back(root, bucket, d, done_by, table, fsync, done);
    lemma_completed(d, done_by, table, fsync, done);
    completed_object_is_apart_from_its_upload(d, m.key, claims, table, m);
    let goal = with_live(d, m.key, m);
    let gone = given_up_blobs(refs);
    assert forall|key: Seq<char>, b: Seq<char>|
        x.live.contains_key(key) && #[trigger] x.live[key].blobs().contains(b) implies !gone.contains(
    b) by {
        assert(goal.live[key].blobs().contains(b));
        if gone.contains(b) {
            let left = stored_table(refs)->Ok_0;
            let i = choose|i: int| 0 <= i < gone.len() && gone[i] == b;
            assert(table.contains(left[i]));
            let j = choose|j: int| 0 <= j < table.len() && table[j] == left[i];
            assert(table_blobs(table)[j] == b);
        }
    }
    lemma_given_up(x, done_by.upload_id@, refs, abort_done);
    lemma_objects_stay(path, x, run(x, abort_steps(done_by.upload_id@, refs), abort_done), gone);
}

/// How a file of a part directory is read: what it records, if it records a part. `parse` reads
/// bytes as a record.
pub open spec fn file_part(
    content: RefContent,
    parse: spec_fn(Seq<u8>) -> Option<PartRefFileView>,
) -> Option<PartRefFileView> {
    match content {
        RefContent::Record(p) => Some(p),
        RefContent::Bytes(data) => parse(data),
    }
}

/// The part that a file with this name records.
pub open spec fn recorded_in(
    name: Seq<char>,
    part: Option<PartRefFileView>,
) -> Option<PartRefFileView> {
    match part {
        Some(p) => if ".ref"@.is_suffix_of(name) && !has_text(name, ".tmp."@) && parsed_unsigned(
            name.take(name.len() - ".ref"@.len()),
            u32::MAX as nat,
        ) == Some(p.part_number as nat) {
            Some(p)
        } else {
            None
        },
        None => None,
    }
}

/// The part that a file of an upload records.
pub open spec fn ref_at(
    d: Disk,
    id: Seq<char>,
    name: Seq<char>,
    parse: spec_fn(Seq<u8>) -> Option<PartRefFileView>,
) -> Option<PartRefFileView> {
    if d.refs.contains_key((id, name)) {
        recorded_in(name, file_part(d.refs[(id, name)], parse))
    } else {
        None
    }
}

pub open spec fn entry_part(entry: RefEntry) -> Option<PartRefFileView> {
    match entry.part {
        Some(p) => Some(p@),
        None => None,
    }
}

/// The entries are the files in the part directory of an upload, in some order.
pub open spec fn lists_refs(
    d: Disk,
    id: Seq<char>,
    parse: spec_fn(Seq<u8>) -> Option<PartRefFileView>,
    entries: Seq<RefEntry>,
) -> bool {
    &&& forall|i: int|
        0 <= i < entries.len() ==> d.refs.contains_key((id, (#[trigger] entries[i]).name@))
            && entry_part(entries[i]) == file_part(d.refs[(id, entries[i].name@)], parse)
    &&& forall|name: Seq<char>| #[trigger]
        d.refs.contains_key((id, name)) ==> exists|i: int|
            0 <= i < entries.len() && (#[trigger] entries[i]).name@ == name
    &&& forall|i: int, j: int|
        0 <= i < j < entries.len() ==> (#[trigger] entries[i]).name@ != (#[trigger] entries[j]).name@
}

/// Each part of an upload is recorded under the name that the store gives it.
pub open spec fn proper_names(
    d: Disk,
    id: Seq<char>,
    parse: spec_fn(Seq<u8>) -> Option<PartRefFileView>,
) -> bool {
    forall|name: Seq<char>|
        (#[trigger] ref_at(d, id, name, parse)) matches Some(p) ==> name == ref_name(
            p.part_number as int,
        )
}

proof fn lemma_ref_names(a: int, b: int)
    requires
        ref_name(a) == ref_name(b),
    ensures
        a == b,
{
    if a != b {
        part_names_differ(a, b);
        reveal_strlit(".ref");
        let x = ref_name(a);
        assert(x.take(x.len() - 4) =~= part_name(a));
        assert(x.take(x.len() - 4) =~= part_name(b));
    }
}

/// The table of an upload holds for each number what the file of that number records.
proof fn lemma_table(
    d: Disk,
    id: Seq<char>,
    parse: spec_fn(Seq<u8>) -> Option<PartRefFileView>,
    entries: Seq<RefEntry>,
    n: int,
)
    requires
        lists_refs(d, id, parse, entries),
        proper_names(d, id, parse),
    ensures
        part_at(part_table(entries), n) == ref_at(d, id, ref_name(n), parse),
{
    let table = part_table(entries);
    let name = ref_name(n);
    assert forall|i: int| 0 <= i < entries.len() implies recorded_part(#[trigger] entries[i])
        == ref_at(d, id, entries[i].name@, parse) by {}
    part_table_is_ordered(entries);
    match ref_at(d, id, name, parse) {
        Some(p) => {
            lemma_ref_names(n, p.part_number as int);
            let i = choose|i: int| 0 <= i < entries.len() && (#[trigger] entries[i]).name@ == name;
            assert(recorded_part(entries[i]) == Some(p));
            assert forall|j: int| i < j < entries.len() implies (recorded_part(
                #[trigger] entries[j],
            ) matches Some(q) ==> q.part_number != n) by {
                if let Some(q) = recorded_part(entries[j]) {
                    assert(ref_at(d, id, entries[j].name@, parse) == Some(q));
                    assert(entries[i].name@ != entries[j].name@);
                }
            }
            last_record_counts(entries, n, i);
        },
        None => {
            if let Some(q) = part_at(table, n) {
                lemma_part_at(table, n);
                lemma_part_number(table, n);
                assert(table.contains(q));
                let i = choose|i: int|
                    0 <= i < entries.len() && recorded_part(#[trigger] entries[i]) == Some(q);
                assert(ref_at(d, id, entries[i].name@, parse) == Some(q));
            }
        },
    }
}

/// In an ordered table, the last part is behind all others.
proof fn lemma_front(table: Seq<PartRefFileView>, n: int)
    requires
        ascending(table),
        table.len() > 0,
    ensures
        ascending(table.drop_last()),
        part_at(table.drop_last(), n) == (if n == table.last().part_number {
            None
        } else {
            part_at(table, n)
        }),
        part_at(table, n) matches Some(p) ==> p.part_number <= table.last().part_number,
{
    let front = table.drop_last();
    assert(ascending(front)) by {
        assert forall|i: int, j: int| 0 <= i < j < front.len() implies (
        #[trigger] front[i]).part_number < (#[trigger] front[j]).part_number by {
            assert(table[i].part_number < table[j].part_number);
        }
    }
    if let Some(p) = part_at(front, n) {
        lemma_part_at(front, n);
        lemma_part_number(front, n);
        let i = choose|i: int| 0 <= i < front.len() && front[i] == p;
        assert(table[i].part_number < table[table.len() - 1].part_number);
    }
}

/// Ordered tables that hold the same for each number are the same.
proof fn lemma_same_table(a: Seq<PartRefFileView>, b: Seq<PartRefFileView>)
    requires
        ascending(a),
        ascending(b),
        forall|n: int| #[trigger] part_at(a, n) == part_at(b, n),
    ensures
        a == b,
    decreases a.len(),
{
    if a.len() == 0 {
        if b.len() > 0 {
            let n = b.last().part_number as int;
            assert(part_at(a, n) == part_at(b, n));
        }
        assert(a =~= b);
    } else {
        let n = a.last().part_number as int;
        assert(part_at(a, n) == part_at(b, n));
        assert(b.len() > 0);
        let k = b.last().part_number as int;
        assert(part_at(a, k) == part_at(b, k));
        lemma_front(a, k);
        lemma_front(b, n);
        assert(n == k);
        assert(a.last() == b.last());
        assert forall|i: int| #[trigger] part_at(a.drop_last(), i) == part_at(b.drop_last(), i) by {
            lemma_front(a, i);
            lemma_front(b, i);
            assert(part_at(a, i) == part_at(b, i));
        }
        lemma_same_table(a.drop_last(), b.drop_last());
        assert(a =~= a.drop_last().push(a.last()));
        assert(b =~= b.drop_last().push(b.last()));
    }
}

/// What a request for the parts of an upload is answered, where no call fails.
pub open spec fn parts_reply(entries: Seq<RefEntry>, times: Seq<i64>) -> Option<
    Result<OutcomeView, StorageError>,
> {
    ending(
        seq![
            StepView::Finish {
                outcome: OutcomeView::Parts {
                    parts: listed_parts(by_signed_number(part_table(entries)), times),
                },
            },
        ],
    )
}

/// The steps of storing a part from the moment the record before it was read.
pub open spec fn part_run(
    stored: PartStored,
    previous: Option<StoredRef>,
    fsync: bool,
) -> Seq<StepView> {
    let n = stored.part.part_number as int;
    let id = stored.part.upload_id@;
    install_steps(
        id,
        ref_tmp_name(n, stored.part.tmp@),
        ref_name(n),
        stored.record(),
        fsync,
    ) + ((if fsync {
        seq![
            StepView::Ask {
                question: QuestionView::TrySyncDir {
                    at: Place::UploadFile { id, name: PARTS_DIR@ },
                },
            },
        ]
    } else {
        Seq::empty()
    }) + kept_steps(previous, stored.part.blob_id@, stored.md5_hex@))
}

/// What a request for the record of a part is answered.
pub open spec fn reads_ref(
    d: Disk,
    id: Seq<char>,
    name: Seq<char>,
    parse: spec_fn(Seq<u8>) -> Option<PartRefFileView>,
    previous: Option<StoredRef>,
) -> bool {
    match previous {
        Some(s) => d.refs.contains_key((id, name)) && (file_part(
            d.refs[(id, name)],
            parse,
        ) matches Some(p) && s.blob_id@ == p.blob_id),
        None => d.refs.contains_key((id, name)) ==> file_part(d.refs[(id, name)], parse) is None,
    }
}

/// The blob that a record named before belongs to no object and to no other part.
pub open spec fn is_own(
    d: Disk,
    table: Seq<PartRefFileView>,
    n: int,
    previous: Option<StoredRef>,
) -> bool {
    previous matches Some(s) ==> {
        &&& is_apart(d, s.blob_id@)
        &&& forall|i: int|
            0 <= i < table.len() && (#[trigger] table[i]).part_number != n ==> table[i].blob_id
                != s.blob_id@
    }
}

/// What the record of a stored part changes.
pub open spec fn with_record(d: Disk, stored: PartStored) -> Map<(Seq<char>, Seq<char>), RefContent> {
    let id = stored.part.upload_id@;
    let n = stored.part.part_number as int;
    let record = RefContent::Record(stored.record());
    let tmp = (id, ref_tmp_name(n, stored.part.tmp@));
    d.refs.insert(tmp, record).remove(tmp).insert((id, ref_name(n)), record)
}

/// The removal of one of the given blobs, or the end of a request, changes nothing else.
proof fn lemma_blob_removed(d: Disk, z: Disk, gone: Seq<Seq<char>>, step: StepView)
    requires
        keeps_blobs(d, z, gone),
        step is Finish || (step matches StepView::Do { call, .. } && call matches CallView::RemoveFile {
            at: Place::Blob { id },
        } && gone.contains(id)),
    ensures
        step_effect(z, step).live == z.live,
        step_effect(z, step).journals == z.journals,
        step_effect(z, step).refs == z.refs,
        keeps_blobs(d, step_effect(z, step), gone),
{
    let v = step_effect(z, step);
    assert forall|b: Seq<char>| d.blobs.contains_key(b) && !gone.contains(b) implies
        #[trigger] v.blobs.contains_key(b) && v.blobs[b] == d.blobs[b] by {
        lemma_kept(d, z, gone, b);
    }
}

/// What storing a part does to the bucket.
proof fn lemma_part_stored(
    d: Disk,
    stored: PartStored,
    previous: Option<StoredRef>,
    fsync: bool,
    done: Seq<bool>,
)
    requires
        ({
            let steps = part_run(stored, previous, fsync);
            reaches(steps, done, steps.len() as int) && done.len() == steps.len()
        }),
    ensures
        run(d, part_run(stored, previous, fsync), done).live == d.live,
        run(d, part_run(stored, previous, fsync), done).journals == d.journals,
        run(d, part_run(stored, previous, fsync), done).refs == with_record(d, stored),
        keeps_blobs(
            d,
            run(d, part_run(stored, previous, fsync), done),
            superseded(previous, stored.part.blob_id@),
        ),
        (forall|i: int| 0 <= i < done.len() ==> done[i]) ==> forall|b: Seq<char>|
            superseded(previous, stored.part.blob_id@).contains(b) && is_canonical_uuid(b) ==> !(
            #[trigger] run(d, part_run(stored, previous, fsync), done).blobs.contains_key(b)),
{
    let id = stored.part.upload_id@;
    let n = stored.part.part_number as int;
    let blob = stored.part.blob_id@;
    let tmp = ref_tmp_name(n, stored.part.tmp@);
    let install = install_steps(id, tmp, ref_name(n), stored.record(), fsync);
    let gone = superseded(previous, blob);
    let seal = (if fsync {
        seq![
            StepView::Ask {
                question: QuestionView::TrySyncDir {
                    at: Place::UploadFile { id, name: PARTS_DIR@ },
                },
            },
        ]
    } else {
        Seq::empty()
    }) + seq![StepView::Seal];
    let reclaim = reclaim_steps(gone, may());
    let end = seq![
        StepView::Finish { outcome: OutcomeView::Etag { etag: quoted(stored.md5_hex@) } },
    ];
    let early = install + seal;
    let steps = part_run(stored, previous, fsync);
    assert(steps =~= early + (reclaim + end));
    lemma_reaches_split(early, reclaim + end, done);
    lemma_reaches_split(install, seal, done);
    lemma_run_concat(d, early, reclaim + end, done);
    lemma_run_concat(d, install, seal, done);
    // The record is put in place.
    let y = run(d, install, done);
    assert(y == (Disk { refs: with_record(d, stored), ..d })) by {
        assert(has_to_succeed(install[1]) && has_to_succeed(install[2]));
        assert(done[1] && done[2]);
        let three = install.drop_last();
        let two = three.drop_last();
        let one = two.drop_last();
        assert(install.last() == install[3]);
        assert(three.last() == install[2]);
        assert(two.last() == install[1]);
        assert(one.last() == install[0]);
        assert(one.drop_last() =~= Seq::empty());
        assert(run(d, one.drop_last(), done) == d);
        assert(run(d, one, done) == d);
        assert(run(d, two, done) == step_effect(d, install[1]));
        assert(run(d, three, done) == step_effect(step_effect(d, install[1]), install[2]));
    }
    let mid = done.skip(install.len() as int);
    let same = |z: Disk| z == y;
    assert forall|z: Disk, i: int| 0 <= i < seal.len() && #[trigger] same(z) implies same(
        step_effect(z, #[trigger] seal[i]),
    ) by {}
    lemma_run_keeps(y, seal, mid, same);
    // The blob before it is removed.
    let late = done.skip(early.len() as int);
    let tail = reclaim + end;
    lemma_reclaim_steps(gone, may());
    let keep = |z: Disk|
        z.live == y.live && z.journals == y.journals && z.refs == y.refs && keeps_blobs(
            d,
            z,
            gone,
        );
    assert forall|z: Disk, i: int| 0 <= i < tail.len() && #[trigger] keep(z) implies keep(
        step_effect(z, #[trigger] tail[i]),
    ) by {
        if i < reclaim.len() {
            assert(tail[i] == reclaim[i]);
        } else {
            assert(tail[i] == end[0]);
        }
        lemma_blob_removed(d, z, gone, tail[i]);
    }
    lemma_run_keeps(y, tail, late, keep);
    let x = run(y, tail, late);
    assert(keep(x));
    if forall|i: int| 0 <= i < done.len() ==> done[i] {
        assert forall|i: int| 0 <= i < reclaim.len() implies late[i] by {
            assert(late[i] == done[early.len() + i]);
        }
        lemma_reclaimed(y, gone, may(), late);
        assert(tail.drop_last() =~= reclaim);
        assert(tail.last() == end[0]);
        assert(x.blobs == run(y, reclaim, late).blobs);
    }
}

/// A file that is being written records nothing, and the file of a part records the part.
proof fn lemma_names(n: int, nonce: Seq<char>, p: PartRefFileView)
    requires
        0 <= n <= u32::MAX,
        p.part_number == n,
    ensures
        has_text(ref_tmp_name(n, nonce), ".tmp."@),
        recorded_in(ref_name(n), Some(p)) == Some(p),
{
    reveal_strlit(".ref");
    reveal_strlit(".tmp.");
    reveal_strlit(".ref.tmp.");
    part_name_spells_its_number(n);
    let stem = part_name(n);
    let tmp = ref_tmp_name(n, nonce);
    let k = stem.len() as int + 4;
    assert(tmp.subrange(k, k + 5) =~= ".tmp."@);
    assert(stands_at(tmp, ".tmp."@, k));
    let name = ref_name(n);
    assert(name.take(name.len() - 4) =~= stem);
    assert(".ref"@.is_suffix_of(name)) by {
        assert(name.subrange(name.len() - 4, name.len() as int) =~= ".ref"@);
    }
    assert(!has_text(name, ".tmp."@)) by {
        assert forall|i: int| !stands_at(name, ".tmp."@, i) by {
            if stands_at(name, ".tmp."@, i) {
                let t = name.subrange(i, i + 5);
                assert(t == ".tmp."@);
                assert(t[0] == name[i] && t[0] == '.');
                assert(t[1] == name[i + 1] && t[1] == 't');
                if i < stem.len() {
                    assert(crate::numbers::is_digit(stem[i]));
                    assert(name[i] == stem[i]);
                }
            }
        }
    }
}

/// What a part directory records after a part was stored.
proof fn lemma_refs_after(
    d: Disk,
    x: Disk,
    stored: PartStored,
    parse: spec_fn(Seq<u8>) -> Option<PartRefFileView>,
)
    requires
        1 <= stored.part.part_number,
        x.refs == with_record(d, stored),
        proper_names(d, stored.part.upload_id@, parse),
    ensures
        proper_names(x, stored.part.upload_id@, parse),
        forall|n: int| #[trigger]
            ref_at(x, stored.part.upload_id@, ref_name(n), parse) == (if n
                == stored.part.part_number {
                Some(stored.record())
            } else {
                ref_at(d, stored.part.upload_id@, ref_name(n), parse)
            }),
{
    let id = stored.part.upload_id@;
    let pn = stored.part.part_number as int;
    let tmp = ref_tmp_name(pn, stored.part.tmp@);
    let rec = stored.record();
    lemma_names(pn, stored.part.tmp@, rec);
    assert forall|name: Seq<char>| #[trigger] ref_at(x, id, name, parse) == (if name == ref_name(
        pn,
    ) {
        Some(rec)
    } else {
        ref_at(d, id, name, parse)
    }) by {
        if name != ref_name(pn) {
            if name == tmp {
                assert(ref_at(d, id, name, parse) is None);
            } else {
                assert(x.refs.contains_key((id, name)) == d.refs.contains_key((id, name)));
            }
        }
    }
    assert forall|n: int| #[trigger] ref_at(x, id, ref_name(n), parse) == (if n == pn {
        Some(rec)
    } else {
        ref_at(d, id, ref_name(n), parse)
    }) by {
        if n != pn && ref_name(n) == ref_name(pn) {
            lemma_ref_names(n, pn);
        }
    }
    assert forall|name: Seq<char>|
        (#[trigger] ref_at(x, id, name, parse)) matches Some(p) ==> name == ref_name(
            p.part_number as int,
        ) by {
        assert(ref_at(d, id, name, parse) matches Some(p) ==> name == ref_name(
            p.part_number as int,
        ));
    }
}

/// The parts of a table with one more.
proof fn lemma_with_part_members(table: Seq<PartRefFileView>, p: PartRefFileView)
    requires
        ascending(table),
    ensures
        forall|i: int|
            0 <= i < with_part(table, p).len() ==> #[trigger] with_part(table, p)[i] == p || (
            table.contains(with_part(table, p)[i]) && with_part(table, p)[i].part_number
                != p.part_number),
{
    let all = with_part(table, p);
    lemma_with_part(table, p);
    assert forall|i: int| 0 <= i < all.len() implies #[trigger] all[i] == p || (table.contains(
        all[i],
    ) && all[i].part_number != p.part_number) by {
        assert(all.contains(all[i]));
        if all[i].part_number == p.part_number {
            lemma_find(all, i);
        }
    }
}

/// An ordered table holds each of its parts under its number.
proof fn lemma_find(table: Seq<PartRefFileView>, i: int)
    requires
        ascending(table),
        0 <= i < table.len(),
    ensures
        part_at(table, table[i].part_number as int) == Some(table[i]),
    decreases table.len(),
{
    if i < table.len() - 1 {
        lemma_front(table, table[i].part_number as int);
        lemma_find(table.drop_last(), i);
        assert(table[i].part_number < table[table.len() - 1].part_number);
    }
}

/// A part that is stored is listed with its number, its size and the digest of its bytes, in the
/// place of one that had its number before; the other parts are listed as they were. No object
/// changes. Where every step succeeds, the blob that had been recorded under the number is gone.
/// What is recorded of the parts stays true.
pub proof fn stored_part_is_listed(
    root: Seq<char>,
    bucket: Seq<char>,
    d: Disk,
    parse: spec_fn(Seq<u8>) -> Option<PartRefFileView>,
    stored: PartStored,
    body: Seq<u8>,
    previous: Option<StoredRef>,
    fsync: bool,
    done: Seq<bool>,
    before: Seq<RefEntry>,
    after: Seq<RefEntry>,
    times: Seq<i64>,
)
    requires
        sound(d),
        1 <= stored.part.part_number,
        body.len() <= u64::MAX,
        stored.size == body.len(),
        stored.md5_hex@ == hex_text(md5_of(body)),
        is_free(d, stored.part.blob_id@),
        proper_names(d, stored.part.upload_id@, parse),
        reads_ref(
            d,
            stored.part.upload_id@,
            ref_name(stored.part.part_number as int),
            parse,
            previous,
        ),
        lists_refs(d, stored.part.upload_id@, parse, before),
        parts_apart(d, part_table(before)),
        true_records(d, part_table(before)),
        own_blobs(part_table(before)),
        is_own(d, part_table(before), stored.part.part_number as int, previous),
        ({
            let steps = part_run(stored, previous, fsync);
            reaches(steps, done, steps.len() as int) && done.len() == steps.len()
        }),
        lists_refs(
            run(
                with_blob(d, stored.part.blob_id@, body),
                part_run(stored, previous, fsync),
                done,
            ),
            stored.part.upload_id@,
            parse,
            after,
        ),
    ensures
        ({
            let path = bucket_root(root, bucket);
            let steps = part_run(stored, previous, fsync);
            let x = run(with_blob(d, stored.part.blob_id@, body), steps, done);
            let n = stored.part.part_number as int;
            let table = with_part(part_table(before), stored.record());
            &&& ending(steps) == Some(
                Ok::<OutcomeView, StorageError>(
                    OutcomeView::Etag { etag: quoted(hex_text(md5_of(body))) },
                ),
            )
            &&& part_table(after) == table
            &&& parts_reply(after, times) == Some(
                Ok::<OutcomeView, StorageError>(
                    OutcomeView::Parts { parts: listed_parts(by_signed_number(table), times) },
                ),
            )
            &&& part_at(table, n) == Some(
                PartRefFileView {
                    part_number: n as u32,
                    blob_id: stored.part.blob_id@,
                    size: body.len() as u64,
                    md5_hex: hex_text(md5_of(body)),
                },
            )
            &&& forall|k: int| k != n ==> #[trigger] part_at(table, k) == part_at(
                part_table(before),
                k,
            )
            &&& forall|key: Seq<char>| #[trigger] same_object(path, d, x, key)
            &&& (forall|i: int| 0 <= i < done.len() ==> done[i]) ==> (previous matches Some(s)
                ==> is_canonical_uuid(s.blob_id@) && s.blob_id@ != stored.part.blob_id@
                ==> !x.blobs.contains_key(s.blob_id@))
            &&& sound(x)
            &&& proper_names(x, stored.part.upload_id@, parse)
            &&& parts_apart(x, table)
            &&& true_records(x, table)
            &&& own_blobs(table)
        }),
{
    let path = bucket_root(root, bucket);
    let id = stored.part.upload_id@;
    let blob = stored.part.blob_id@;
    let n = stored.part.part_number as int;
    let d1 = with_blob(d, blob, body);
    let steps = part_run(stored, previous, fsync);
    let x = run(d1, steps, done);
    let old_table = part_table(before);
    let rec = stored.record();
    let table = with_part(old_table, rec);
    let gone = superseded(previous, blob);
    lemma_part_stored(d1, stored, previous, fsync, done);
    assert(with_record(d1, stored) == with_record(d, stored));
    lemma_refs_after(d, x, stored, parse);
    part_table_is_ordered(before);
    part_table_is_ordered(after);
    lemma_with_part(old_table, rec);
    assert forall|k: int| #[trigger] part_at(part_table(after), k) == part_at(table, k) by {
        lemma_table(d, id, parse, before, k);
        lemma_table(x, id, parse, after, k);
    }
    lemma_same_table(part_table(after), table);
    assert(steps.last() == kept_steps(previous, blob, stored.md5_hex@).last());
    lemma_stored_blobs(d, x, stored, body, previous, old_table);
    lemma_objects_stay(path, d, x, gone);
    if previous is Some && previous->0.blob_id@ != blob {
        assert(gone[0] == previous->0.blob_id@);
        assert(gone.contains(previous->0.blob_id@));
    }
}

/// What storing a part does to the blobs.
proof fn lemma_stored_blobs(
    d: Disk,
    x: Disk,
    stored: PartStored,
    body: Seq<u8>,
    previous: Option<StoredRef>,
    table: Seq<PartRefFileView>,
)
    requires
        sound(d),
        ascending(table),
        1 <= stored.part.part_number,
        stored.size == body.len(),
        stored.md5_hex@ == hex_text(md5_of(body)),
        is_free(d, stored.part.blob_id@),
        parts_apart(d, table),
        true_records(d, table),
        own_blobs(table),
        is_own(d, table, stored.part.part_number as int, previous),
        x.live == d.live,
        x.journals == d.journals,
        keeps_blobs(
            with_blob(d, stored.part.blob_id@, body),
            x,
            superseded(previous, stored.part.blob_id@),
        ),
    ensures
        sound(x),
        keeps_blobs(d, x, superseded(previous, stored.part.blob_id@)),
        forall|key: Seq<char>, b: Seq<char>|
            d.live.contains_key(key) && #[trigger] d.live[key].blobs().contains(b)
                ==> !superseded(previous, stored.part.blob_id@).contains(b),
        parts_apart(x, with_part(table, stored.record())),
        true_records(x, with_part(table, stored.record())),
        own_blobs(with_part(table, stored.record())),
{
    let blob = stored.part.blob_id@;
    let rec = stored.record();
    let all = with_part(table, rec);
    let d1 = with_blob(d, blob, body);
    let gone = superseded(previous, blob);
    assert forall|b: Seq<char>| gone.contains(b) implies previous is Some && b
        == previous->0.blob_id@ && b != blob by {
        let i = choose|i: int| 0 <= i < gone.len() && gone[i] == b;
    }
    assert forall|b: Seq<char>| d.blobs.contains_key(b) && !gone.contains(b) implies
        #[trigger] x.blobs.contains_key(b) && x.blobs[b] == d.blobs[b] by {
        lemma_kept(d1, x, gone, b);
    }
    assert forall|key: Seq<char>, b: Seq<char>|
        d.live.contains_key(key) && #[trigger] d.live[key].blobs().contains(b) implies !gone.contains(
    b) by {
        if gone.contains(b) {
            assert(is_apart(d, b));
        }
    }
    assert(complete(x)) by {
        assert forall|key: Seq<char>, b: Seq<char>|
            x.live.contains_key(key) && #[trigger] x.live[key].blobs().contains(b) implies x.blobs.contains_key(
        b) by {
            assert(d.live[key].blobs().contains(b));
            assert(d.blobs.contains_key(b));
            lemma_kept(d, x, gone, b);
        }
    }
    assert(exclusive(x));
    assert forall|k: Seq<char>| x.journals.contains_key(k) implies harmless(
        x,
        #[trigger] x.journals[k],
    ) by {
        assert(harmless(d, d.journals[k]));
    }
    lemma_with_part(table, rec);
    lemma_with_part_members(table, rec);
    lemma_kept(d1, x, gone, blob);
    assert forall|i: int| 0 <= i < all.len() implies {
        let p = #[trigger] all[i];
        &&& x.blobs.contains_key(p.blob_id)
        &&& x.blobs[p.blob_id].len() == p.size
        &&& p.md5_hex == hex_text(md5_of(x.blobs[p.blob_id]))
        &&& p != rec ==> p.blob_id != blob
        &&& is_apart(x, p.blob_id)
    } by {
        let p = all[i];
        if p != rec {
            let j = choose|j: int| 0 <= j < table.len() && table[j] == p;
            assert(d.blobs.contains_key(table[j].blob_id));
            assert(!gone.contains(p.blob_id));
            lemma_kept(d, x, gone, p.blob_id);
            assert(table_blobs(table)[j] == p.blob_id);
            assert(table_blobs(table).contains(p.blob_id));
        }
    }
    assert forall|i: int, j: int| 0 <= i < j < all.len() implies (#[trigger] all[i]).blob_id != (
    #[trigger] all[j]).blob_id by {
        assert(all[i].part_number < all[j].part_number);
        if all[i] != rec && all[j] != rec {
            let a = choose|k: int| 0 <= k < table.len() && table[k] == all[i];
            let b = choose|k: int| 0 <= k < table.len() && table[k] == all[j];
            if a < b {
                assert(table[a].blob_id != table[b].blob_id);
            } else {
                assert(table[b].blob_id != table[a].blob_id);
            }
        }
    }
    assert forall|key: Seq<char>, b: Seq<char>|
        x.live.contains_key(key) && #[trigger] x.live[key].blobs().contains(b) implies !table_blobs(
        all,
    ).contains(b) by {
        if table_blobs(all).contains(b) {
            let i = choose|i: int| 0 <= i < table_blobs(all).len() && table_blobs(all)[i] == b;
            assert(all[i].blob_id == b);
            assert(is_apart(x, all[i].blob_id));
        }
    }
}

/// The steps of a completion up to the one that makes the new version live.
pub open spec fn failing_run(
    d: Disk,
    done_by: Assembling,
    table: Seq<PartRefFileView>,
    fsync: bool,
) -> Seq<StepView> {
    let m = done_by.manifest(table);
    let claims = claim_views(done_by.claims@);
    match claims_error(claims) {
        Some(error) => seq![StepView::Fail { error }],
        None => assemble_steps(claims, table, 0, fsync) + if claims_hold(claims, table) {
            preparing_steps(
                m,
                done_by.ids.staged_name(),
                done_by.ids.journal_name(),
                done_by.ids.journal_tmp_name(),
                journal_of(d, m.key, m),
                fsync,
            )
        } else {
            Seq::empty()
        },
    }
}

/// The bucket after a completion that failed at step `k`, before the new version was live, and was
/// undone.
pub open spec fn failed_disk(
    d: Disk,
    done_by: Assembling,
    table: Seq<PartRefFileView>,
    fsync: bool,
    done: Seq<bool>,
    k: int,
) -> Disk {
    let steps = failing_run(d, done_by, table, fsync).take(k);
    undone(run(d, steps, done), left_behind(Seq::empty(), steps))
}

/// A step that does nothing to the journals, and leaves nothing behind but the move of a blob or
/// the removal of a staged manifest or of a journal.
pub open spec fn is_quiet(step: StepView) -> bool {
    &&& forall|d: Disk| (#[trigger] step_effect(d, step)).journals == d.journals
    &&& leaves_little(step)
}

pub open spec fn leaves_little(step: StepView) -> bool {
    step matches StepView::Defer { call } ==> is_move(call) || is_removal(call)
}

/// The steps of an assembly are quiet.
proof fn lemma_assembly_is_quiet(
    claims: Seq<ClaimView>,
    table: Seq<PartRefFileView>,
    total: int,
    fsync: bool,
)
    ensures
        forall|i: int|
            0 <= i < assemble_steps(claims, table, total, fsync).len() ==> is_quiet(
                #[trigger] assemble_steps(claims, table, total, fsync)[i],
            ),
    decreases claims.len(),
{
    if claims.len() > 0 {
        if let Some(p) = claimed_part(claims[0], table) {
            lemma_assembly_is_quiet(claims.skip(1), table, total + p.size, fsync);
            let all = assemble_steps(claims, table, total, fsync);
            let m = move_steps(p, claims[0].blob_id, fsync);
            let rest = if is_hex_and_fits(p, total) {
                assemble_steps(claims.skip(1), table, total + p.size, fsync)
            } else {
                seq![StepView::Fail { error: StorageError::InvalidPart }]
            };
            assert(all == m + rest);
            assert forall|i: int| 0 <= i < all.len() implies is_quiet(#[trigger] all[i]) by {
                if i >= m.len() {
                    assert(all[i] == rest[i - m.len()]);
                } else {
                    assert(all[i] == m[i]);
                }
            }
        }
    }
}

/// What steps leave behind.
proof fn lemma_left_behind_little(before: Seq<CallView>, steps: Seq<StepView>)
    requires
        forall|i: int| 0 <= i < before.len() ==> is_move(#[trigger] before[i]) || is_removal(before[i]),
        forall|i: int| 0 <= i < steps.len() ==> leaves_little(#[trigger] steps[i]),
    ensures
        forall|i: int|
            0 <= i < left_behind(before, steps).len() ==> is_move(
                #[trigger] left_behind(before, steps)[i],
            ) || is_removal(left_behind(before, steps)[i]),
    decreases steps.len(),
{
    if steps.len() > 0 {
        let front = steps.drop_last();
        assert forall|i: int| 0 <= i < front.len() implies leaves_little(#[trigger] front[i]) by {
            assert(front[i] == steps[i]);
        }
        lemma_left_behind_little(before, front);
        assert(leaves_little(steps[steps.len() - 1]));
        let early = left_behind(before, front);
        let all = left_behind(before, steps);
        assert forall|i: int| 0 <= i < all.len() implies is_move(#[trigger] all[i]) || is_removal(
            all[i],
        ) by {
            if i < early.len() {
                assert(is_move(early[i]) || is_removal(early[i]));
                assert(all[i] == early[i]);
            }
        }
    }
}

/// Undoing adds no journal.
proof fn lemma_undone_journals(d: Disk, calls: Seq<CallView>)
    requires
        forall|i: int| 0 <= i < calls.len() ==> is_move(#[trigger] calls[i]) || is_removal(calls[i]),
    ensures
        forall|n: Seq<char>| #[trigger]
            undone(d, calls).journals.contains_key(n) ==> d.journals.contains_key(n)
                && undone(d, calls).journals[n] == d.journals[n],
    decreases calls.len(),
{
    if calls.len() > 0 {
        let front = calls.drop_last();
        assert(is_move(calls[calls.len() - 1]) || is_removal(calls[calls.len() - 1]));
        assert forall|i: int| 0 <= i < front.len() implies is_move(#[trigger] front[i])
            || is_removal(front[i]) by {
            assert(front[i] == calls[i]);
        }
        let e = effect(d, calls.last());
        lemma_undone_journals(e, front);
        let x = undone(d, calls);
        assert(x == undone(e, front));
        assert forall|n: Seq<char>| #[trigger] x.journals.contains_key(n) implies d.journals.contains_key(
            n,
        ) && x.journals[n] == d.journals[n] by {
            assert(e.journals.contains_key(n));
        }
    }
}

/// Every journal that stands while a completion has not come to the swap is harmless.
proof fn lemma_failing_journals(
    d: Disk,
    done_by: Assembling,
    table: Seq<PartRefFileView>,
    fsync: bool,
    done: Seq<bool>,
    k: int,
)
    requires
        sound(d),
        parts_apart(d, table),
        true_records(d, table),
        own_blobs(table),
        claims_error(claim_views(done_by.claims@)) is None,
        free_ids(d, claim_views(done_by.claims@), table),
        live_of(d, done_by.upload@.key) matches Some(old_version) ==> old_version.commit_nonce
            != done_by.ids.nonce@,
        reaches(failing_run(d, done_by, table, fsync), done, k),
        done.len() >= failing_run(d, done_by, table, fsync).len(),
    ensures
        forall|n: Seq<char>|
            run(d, failing_run(d, done_by, table, fsync).take(k), done).journals.contains_key(n)
                ==> harmless(
                d,
                #[trigger] run(
                    d,
                    failing_run(d, done_by, table, fsync).take(k),
                    done,
                ).journals[n],
            ),
{
    let claims = claim_views(done_by.claims@);
    let m = done_by.manifest(table);
    let key = m.key;
    let assemble = assemble_steps(claims, table, 0, fsync);
    let staged = done_by.ids.staged_name();
    let name = done_by.ids.journal_name();
    let tmp = done_by.ids.journal_tmp_name();
    let journal = journal_of(d, key, m);
    let stage = stage_steps(m, staged, fsync);
    let head = commit_head(key, name, tmp, journal, fsync);
    let quiet = assemble + stage;
    let steps = failing_run(d, done_by, table, fsync);
    let x = run(d, steps.take(k), done);
    lemma_assembly_is_quiet(claims, table, 0, fsync);
    let n = if k <= quiet.len() {
        k
    } else {
        quiet.len() as int
    };
    let early = if claims_hold(claims, table) {
        quiet.take(n)
    } else {
        assemble.take(k)
    };
    let keep = |z: Disk| z.journals == d.journals;
    assert forall|z: Disk, i: int| 0 <= i < early.len() && #[trigger] keep(z) implies keep(
        step_effect(z, #[trigger] early[i]),
    ) by {
        if i < assemble.len() {
            assert(early[i] == assemble[i]);
            assert(is_quiet(assemble[i]));
        } else {
            assert(early[i] == stage[i - assemble.len()]);
        }
    }
    lemma_run_keeps(d, early, done, keep);
    if claims_hold(claims, table) && k > quiet.len() {
        assert(steps =~= quiet + head);
        lemma_run_prefix(d, quiet, head, done, k);
        assert(quiet.take(quiet.len() as int) =~= quiet);
        lemma_reaches_prefix(steps, done, k, quiet, head);
        lemma_reaches_split(assemble, stage, done);
        let y = run(d, quiet, done);
        lemma_prepared_disk(d, done_by, table, fsync, done);
        lemma_head(y, key, m, name, tmp, fsync, done.skip(quiet.len() as int), k - quiet.len());
        assert(journal_of(y, key, m) == journal);
        assert forall|j: Seq<char>| x.journals.contains_key(j) implies harmless(
            d,
            #[trigger] x.journals[j],
        ) by {
            assert(harmless(y, x.journals[j]));
        }
    } else {
        assert(steps.take(k) =~= early);
        assert forall|j: Seq<char>| x.journals.contains_key(j) implies harmless(
            d,
            #[trigger] x.journals[j],
        ) by {
            assert(harmless(d, d.journals[j]));
        }
    }
}

/// What had to succeed in the first steps of two lists, had to in the first list.
proof fn lemma_reaches_prefix(
    steps: Seq<StepView>,
    done: Seq<bool>,
    k: int,
    a: Seq<StepView>,
    b: Seq<StepView>,
)
    requires
        steps == a + b,
        reaches(steps, done, k),
        k >= a.len(),
    ensures
        reaches(a, done, a.len() as int),
{
    assert forall|i: int| 0 <= i < a.len() && has_to_succeed(#[trigger] a[i]) implies done[i] by {
        assert(steps[i] == a[i]);
    }
}

/// The bucket once the blobs are moved and the new version is staged.
proof fn lemma_prepared_disk(
    d: Disk,
    done_by: Assembling,
    table: Seq<PartRefFileView>,
    fsync: bool,
    done: Seq<bool>,
)
    requires
        sound(d),
        parts_apart(d, table),
        true_records(d, table),
        own_blobs(table),
        is_valid(claim_views(done_by.claims@), table),
        free_ids(d, claim_views(done_by.claims@), table),
        live_of(d, done_by.upload@.key) matches Some(old_version) ==> old_version.commit_nonce
            != done_by.ids.nonce@,
        ({
            let assemble = assemble_steps(claim_views(done_by.claims@), table, 0, fsync);
            let stage = stage_steps(
                done_by.manifest(table),
                done_by.ids.staged_name(),
                fsync,
            );
            reaches(assemble + stage, done, (assemble + stage).len() as int) && done.len() >= (
            assemble + stage).len()
        }),
    ensures
        ({
            let assemble = assemble_steps(claim_views(done_by.claims@), table, 0, fsync);
            let m = done_by.manifest(table);
            let stage = stage_steps(m, done_by.ids.staged_name(), fsync);
            let y = run(d, assemble + stage, done);
            sound(y) && committable(y, m.key, m) && y.live == d.live
        }),
{
    let claims = claim_views(done_by.claims@);
    let m = done_by.manifest(table);
    let assemble = assemble_steps(claims, table, 0, fsync);
    let stage = stage_steps(m, done_by.ids.staged_name(), fsync);
    lemma_claims_there(d, claims, table);
    lemma_claims_hold(claims, table, 0);
    assert(claims.skip(0) =~= claims);
    assert(assembled(claims, table).take(0) =~= Seq::empty());
    lemma_reaches_split(assemble, stage, done);
    lemma_run_concat(d, assemble, stage, done);
    lemma_assembly_moves(d, claims, table, 0, fsync, done);
    let z = run(d, assemble, done);
    assert forall|b: Seq<char>|
        d.blobs.contains_key(b) && !table_blobs(table).contains(b) implies #[trigger] z.blobs.contains_key(
    b) && z.blobs[b] == d.blobs[b] by {
        assert(run(d, assemble, done).blobs.contains_key(b));
    }
    lemma_after_assembly(d, z, claims, table);
    let keep = |v: Disk| v.live == z.live && v.journals == z.journals && v.blobs == z.blobs;
    assert forall|v: Disk, i: int| 0 <= i < stage.len() && #[trigger] keep(v) implies keep(
        step_effect(v, #[trigger] stage[i]),
    ) by {}
    lemma_run_keeps(z, stage, done.skip(assemble.len() as int), keep);
    let y = run(d, assemble + stage, done);
    assert(keep(y));
    lemma_sound_alike(z, y);
    assert forall|b: Seq<char>| #[trigger] m.blobs().contains(b) implies y.blobs.contains_key(b)
        && unowned(y, b) by {
        let i = choose|i: int| 0 <= i < m.blobs().len() && m.blobs()[i] == b;
        assert(claims[i].blob_id == b);
        assert(is_free(d, claims[i].blob_id));
    }
}

/// A completion with improper claims does nothing.
proof fn lemma_refused(
    d: Disk,
    done_by: Assembling,
    table: Seq<PartRefFileView>,
    fsync: bool,
    done: Seq<bool>,
    k: int,
)
    requires
        claims_error(claim_views(done_by.claims@)) is Some,
        0 <= k <= failing_run(d, done_by, table, fsync).len(),
    ensures
        failed_disk(d, done_by, table, fsync, done, k) == d,
{
    let all = failing_run(d, done_by, table, fsync);
    let steps = all.take(k);
    let still = |z: Disk| z == d;
    assert forall|z: Disk, i: int| 0 <= i < steps.len() && #[trigger] still(z) implies still(
        step_effect(z, #[trigger] steps[i]),
    ) by {
        assert(steps[i] == all[i]);
    }
    lemma_run_keeps(d, steps, done, still);
    assert(left_behind(Seq::empty(), steps) =~= Seq::empty()) by {
        if k > 0 {
            assert(steps.drop_last() =~= Seq::empty());
            assert(left_behind(Seq::empty(), steps.drop_last()) =~= Seq::empty());
            assert(steps.last() == all[0]);
        }
    }
}

/// A completion that fails before the new version is live, and is undone, leaves a bucket with the
/// same live versions, blobs and part records, and a sound one.
proof fn lemma_failed(
    d: Disk,
    done_by: Assembling,
    table: Seq<PartRefFileView>,
    fsync: bool,
    done: Seq<bool>,
    k: int,
)
    requires
        sound(d),
        parts_apart(d, table),
        true_records(d, table),
        own_blobs(table),
        claims_error(claim_views(done_by.claims@)) is None,
        free_ids(d, claim_views(done_by.claims@), table),
        live_of(d, done_by.upload@.key) matches Some(old_version) ==> old_version.commit_nonce
            != done_by.ids.nonce@,
        ({
            let steps = failing_run(d, done_by, table, fsync);
            &&& reaches(steps, done, k)
            &&& done.len() >= steps.len()
            &&& k < steps.len() ==> !(steps[k] is Defer)
        }),
    ensures
        sound(failed_disk(d, done_by, table, fsync, done, k)),
        failed_disk(d, done_by, table, fsync, done, k).live == d.live,
        failed_disk(d, done_by, table, fsync, done, k).blobs == d.blobs,
        failed_disk(d, done_by, table, fsync, done, k).refs == d.refs,
{
    let claims = claim_views(done_by.claims@);
    let m = done_by.manifest(table);
    let assemble = assemble_steps(claims, table, 0, fsync);
    let staged = done_by.ids.staged_name();
    let name = done_by.ids.journal_name();
    let tmp = done_by.ids.journal_tmp_name();
    let journal = journal_of(d, m.key, m);
    let prepare = preparing_steps(m, staged, name, tmp, journal, fsync);
    let all = failing_run(d, done_by, table, fsync);
    let steps = all.take(k);
    let x = run(d, steps, done);
    let y = failed_disk(d, done_by, table, fsync, done, k);
    if claims_hold(claims, table) {
        failed_completion_keeps_the_upload(
            d,
            claims,
            table,
            m,
            staged,
            name,
            tmp,
            journal,
            fsync,
            done,
            k,
        );
    } else {
        assert(all =~= assemble);
        failed_assembly_is_undone(d, claims, table, 0, fsync, done, k);
    }
    lemma_failing_journals(d, done_by, table, fsync, done, k);
    lemma_assembly_is_quiet(claims, table, 0, fsync);
    assert forall|i: int| 0 <= i < steps.len() implies leaves_little(#[trigger] steps[i]) by {
        if i < assemble.len() {
            assert(steps[i] == assemble[i]);
            assert(is_quiet(assemble[i]));
        } else {
            assert(steps[i] == prepare[i - assemble.len()]);
        }
    }
    lemma_left_behind_little(Seq::empty(), steps);
    lemma_undone_journals(x, left_behind(Seq::empty(), steps));
    assert(complete(y));
    assert(exclusive(y));
    assert forall|n: Seq<char>| y.journals.contains_key(n) implies harmless(
        y,
        #[trigger] y.journals[n],
    ) by {
        assert(harmless(d, x.journals[n]));
    }
}

/// A completion that fails before the new version is live, and is undone, changes nothing that is
/// seen: every object is answered as before, and so is a request for the parts of the upload. A
/// valid completion then succeeds, and the object is read back.
pub proof fn failed_completion_can_be_repeated(
    root: Seq<char>,
    bucket: Seq<char>,
    d: Disk,
    parse: spec_fn(Seq<u8>) -> Option<PartRefFileView>,
    done_by: Assembling,
    fsync: bool,
    done: Seq<bool>,
    k: int,
    before: Seq<RefEntry>,
    after: Seq<RefEntry>,
    times: Seq<i64>,
    again: Assembling,
    again_done: Seq<bool>,
)
    requires
        is_bucket_name(bucket),
        sound(d),
        proper_names(d, done_by.upload_id@, parse),
        lists_refs(d, done_by.upload_id@, parse, before),
        parts_apart(d, part_table(before)),
        true_records(d, part_table(before)),
        own_blobs(part_table(before)),
        free_ids(d, claim_views(done_by.claims@), part_table(before)),
        live_of(d, done_by.upload@.key) matches Some(old_version) ==> old_version.commit_nonce
            != done_by.ids.nonce@,
        ({
            let steps = failing_run(d, done_by, part_table(before), fsync);
            &&& reaches(steps, done, k)
            &&& done.len() >= steps.len()
            &&& k < steps.len() ==> !(steps[k] is Defer)
        }),
        lists_refs(
            failed_disk(d, done_by, part_table(before), fsync, done, k),
            done_by.upload_id@,
            parse,
            after,
        ),
        is_valid(claim_views(again.claims@), part_table(before)),
        free_ids(
            failed_disk(d, done_by, part_table(before), fsync, done, k),
            claim_views(again.claims@),
            part_table(before),
        ),
        live_of(d, again.upload@.key) matches Some(old_version) ==> old_version.commit_nonce
            != again.ids.nonce@,
        ({
            let y = failed_disk(d, done_by, part_table(before), fsync, done, k);
            let steps = complete_run(y, again, part_table(after), fsync);
            reaches(steps, again_done, steps.len() as int) && again_done.len() == steps.len()
        }),
    ensures
        ({
            let path = bucket_root(root, bucket);
            let y = failed_disk(d, done_by, part_table(before), fsync, done, k);
            let steps = complete_run(y, again, part_table(after), fsync);
            let x = run(y, steps, again_done);
            let bodies = claimed_bodies(d, claim_views(again.claims@), part_table(before));
            &&& forall|key: Seq<char>| #[trigger] same_object(path, d, y, key)
            &&& parts_reply(after, times) == parts_reply(before, times)
            &&& ending(steps) == Some(
                Ok::<OutcomeView, StorageError>(OutcomeView::Etag { etag: bodies_tag(bodies) }),
            )
            &&& reads_as(
                path,
                x,
                again.upload@.key,
                again.manifest(part_table(after)),
                body_from(bodies, 0),
            )
        }),
{
    let path = bucket_root(root, bucket);
    let id = done_by.upload_id@;
    let table = part_table(before);
    let y = failed_disk(d, done_by, table, fsync, done, k);
    if claims_error(claim_views(done_by.claims@)) is Some {
        lemma_refused(d, done_by, table, fsync, done, k);
    } else {
        lemma_failed(d, done_by, table, fsync, done, k);
    }
    assert forall|name: Seq<char>| #[trigger] ref_at(y, id, name, parse) == ref_at(
        d,
        id,
        name,
        parse,
    ) by {}
    part_table_is_ordered(before);
    part_table_is_ordered(after);
    assert forall|n: int| #[trigger] part_at(part_table(after), n) == part_at(table, n) by {
        lemma_table(d, id, parse, before, n);
        lemma_table(y, id, parse, after, n);
    }
    lemma_same_table(part_table(after), table);
    lemma_objects_stay(path, d, y, Seq::empty());
    assert(parts_apart(y, table));
    assert(true_records(y, table));
    assert(claimed_bodies(y, claim_views(again.claims@), table) =~= claimed_bodies(
        d,
        claim_views(again.claims@),
        table,
    ));
    completed_object_is_read_back(root, bucket, y, again, table, fsync, again_done);
}

} // verus!
