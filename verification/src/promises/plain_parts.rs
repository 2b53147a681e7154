//! Uploads in parts in the plain layout: a part that was stored is listed.

use vstd::prelude::*;
use crate::filesystem::objects::tmp_suffix;
use crate::filesystem::store::Filesystem;
use crate::filesystem::uploads::{
    by_number, listed_part, named_part, part_tmp, parts_come_out_in_order, plain_parts,
    plain_parts_answer, with_number, without_zeros, PlainPartUpload,
};
use crate::numbers::{
    all_digits, decimal, digits_value, is_digit, lemma_decimal_value, lemma_padded,
    lemma_zeros_value, padded, part_name, parsed_i32, unsigned_part, zeros,
};
use crate::outside::{hex_text, md5_of};
use crate::plan::call::{BodyDigest, CallView, OutcomeView, PlainPartEntry, QuestionView, Report};
use crate::plan::place::Place;
use crate::plan::runner::{must, Plan, StepView};
use crate::promises::listing::occurs_at;
use crate::types::{IoError, PartInfoView, StorageError};

verus! {

/// The plan does nothing but answer with these parts.
pub open spec fn answers_parts(steps: Seq<StepView>, parts: Seq<PartInfoView>) -> bool {
    steps == seq![StepView::Finish { outcome: OutcomeView::Parts { parts } }]
}

/// The entity tag of bytes: their MD5 in hexadecimal, in quotes.
pub open spec fn tag_of(bytes: Seq<u8>) -> Seq<char> {
    seq!['"'] + hex_text(md5_of(bytes)) + seq!['"']
}

/// The bytes that were written for a part are moved to the file of this name.
pub open spec fn is_put_at(opened: Seq<StepView>, stored: Seq<StepView>, id: Seq<char>, name: Seq<char>) -> bool {
    exists|tmp: Seq<char>|
        opened.last() == (StepView::Ask {
            question: QuestionView::StreamFile { at: Place::PlainPart { id, name: tmp } },
        }) && stored.contains(
            #[trigger] moved_step(id, tmp, name),
        )
}

pub open spec fn moved_step(id: Seq<char>, tmp: Seq<char>, name: Seq<char>) -> StepView {
    StepView::Do {
        call: CallView::Rename {
            src: Place::PlainPart { id, name: tmp },
            dst: Place::PlainPart { id, name },
        },
        rule: must(Report::Io),
    }
}

/// The file holds these bytes.
pub open spec fn holds(entry: PlainPartEntry, bytes: Seq<u8>) -> bool {
    &&& !entry.is_dir
    &&& entry.size == bytes.len()
    &&& (entry.digest matches Ok(d) && d@ == md5_of(bytes))
}

/// No file failed to be looked at.
pub open spec fn all_readable(entries: Seq<Result<PlainPartEntry, IoError>>) -> bool {
    forall|i: int|
        0 <= i < entries.len() ==> (#[trigger] entries[i] matches Ok(entry) && entry.digest is Ok)
}

proof fn lemma_without_zeros(s: Seq<char>)
    requires
        all_digits(s),
    ensures
        all_digits(without_zeros(s)),
        digits_value(without_zeros(s)) == digits_value(s),
    decreases s.len(),
{
    if s.len() > 0 && s[0] == '0' {
        let rest = s.skip(1);
        assert forall|i: int| 0 <= i < rest.len() implies is_digit(#[trigger] rest[i]) by {
            assert(rest[i] == s[i + 1]);
        }
        lemma_without_zeros(rest);
        lemma_zeros_value(1, rest);
        assert(zeros(1) + rest =~= s);
    }
}

proof fn lemma_padded_digits(n: nat, width: nat)
    ensures
        all_digits(padded(decimal(n), width)),
        digits_value(padded(decimal(n), width)) == n,
        padded(decimal(n), width).len() > 0,
{
    lemma_decimal_value(n);
    lemma_padded(n, width);
    let s = padded(decimal(n), width);
    assert forall|i: int| 0 <= i < s.len() implies is_digit(#[trigger] s[i]) by {
        if decimal(n).len() < width && i >= width - decimal(n).len() {
            assert(s[i] == decimal(n)[i - (width - decimal(n).len())]);
        }
    }
}

/// The name of the file of a part gives back its number, and is not that of a file that is being
/// written.
proof fn lemma_named(n: i32)
    ensures
        named_part(part_name(n as int)) == Some(n as int),
        forall|i: int| 0 <= i < part_name(n as int).len() ==> #[trigger] part_name(n as int)[i] != '.',
{
    let name = part_name(n as int);
    if n < 0 {
        let digits = padded(decimal((-n) as nat), 4);
        lemma_padded_digits((-n) as nat, 4);
        assert(name.skip(1) =~= digits);
        assert(name[0] == '-');
        assert(without_zeros(name) == name);
        assert(parsed_i32(name) == Some(n as int));
        assert forall|i: int| 0 <= i < name.len() implies #[trigger] name[i] != '.' by {
            if i > 0 {
                assert(name[i] == digits[i - 1]);
                assert(is_digit(digits[i - 1]));
            }
        }
    } else {
        lemma_padded_digits(n as nat, 5);
        lemma_without_zeros(name);
        let short = without_zeros(name);
        assert(is_digit(name[0]));
        assert(unsigned_part(name) == name);
        assert(parsed_i32(name) == Some(n as int));
        if short.len() > 0 {
            assert(is_digit(short[0]));
            assert(unsigned_part(short) == short);
            assert(parsed_i32(short) == Some(n as int));
        } else {
            assert(parsed_i32(short) is None);
        }
        assert forall|i: int| 0 <= i < name.len() implies #[trigger] name[i] != '.' by {
            assert(is_digit(name[i]));
        }
    }
}

proof fn lemma_no_dot(s: Seq<char>)
    requires
        forall|i: int| 0 <= i < s.len() ==> #[trigger] s[i] != '.',
    ensures
        !crate::text::has_text(s, ".tmp."@),
{
    reveal_strlit(".tmp.");
    let pat = ".tmp."@;
    assert forall|i: int| !crate::text::stands_at(s, pat, i) by {
        if crate::text::stands_at(s, pat, i) {
            assert(s.subrange(i, i + pat.len())[0] == s[i]);
        }
    }
}

/// Where nothing failed, the list has exactly what the files are listed as.
proof fn lemma_found(entries: Seq<Result<PlainPartEntry, IoError>>)
    requires
        all_readable(entries),
    ensures
        plain_parts(entries) is Ok,
        forall|i: int|
            0 <= i < entries.len() ==> (listed_part((#[trigger] entries[i])->Ok_0) matches Some(Ok(p))
                ==> plain_parts(entries)->Ok_0.contains(p)),
        forall|p: PartInfoView|
            #[trigger] plain_parts(entries)->Ok_0.contains(p) ==> exists|i: int|
                0 <= i < entries.len() && listed_part((#[trigger] entries[i])->Ok_0) == Some(
                    Ok::<PartInfoView, IoError>(p),
                ),
    decreases entries.len(),
{
    if entries.len() > 0 {
        let front = entries.drop_last();
        assert forall|i: int| 0 <= i < front.len() implies (#[trigger] front[i] matches Ok(entry)
            && entry.digest is Ok) by {
            assert(entries[i] == front[i]);
        }
        lemma_found(front);
        let last = entries.last();
        assert(entries[entries.len() - 1] == last);
        let early = plain_parts(front)->Ok_0;
        let all = plain_parts(entries)->Ok_0;
        assert forall|i: int| 0 <= i < entries.len() implies (listed_part(
            (#[trigger] entries[i])->Ok_0,
        ) matches Some(Ok(p)) ==> all.contains(p)) by {
            if let Some(Ok(p)) = listed_part(entries[i]->Ok_0) {
                if i < front.len() {
                    assert(front[i] == entries[i]);
                    let k = early.index_of(p);
                    assert(all[k] == p);
                } else {
                    assert(all[all.len() - 1] == p);
                }
            }
        }
        assert forall|p: PartInfoView| #[trigger] all.contains(p) implies exists|i: int|
            0 <= i < entries.len() && listed_part((#[trigger] entries[i])->Ok_0) == Some(
                Ok::<PartInfoView, IoError>(p),
            ) by {
            let k = all.index_of(p);
            if k < early.len() {
                assert(early.contains(p)) by {
                    assert(early[k] == p);
                }
                let i = choose|i: int|
                    0 <= i < front.len() && listed_part((#[trigger] front[i])->Ok_0) == Some(
                        Ok::<PartInfoView, IoError>(p),
                    );
                assert(entries[i] == front[i]);
            } else {
                assert(listed_part(entries[entries.len() - 1]->Ok_0) == Some(
                    Ok::<PartInfoView, IoError>(p),
                ));
            }
        }
    }
}

proof fn lemma_same_members(found: Seq<PartInfoView>, p: PartInfoView)
    ensures
        by_number(found).contains(p) <==> found.contains(p),
{
    broadcast use vstd::seq_lib::group_to_multiset_ensures;

    parts_come_out_in_order(found);
    assert(by_number(found).to_multiset().count(p) == found.to_multiset().count(p));
    assert(found.contains(p) <==> found.to_multiset().count(p) > 0);
    assert(by_number(found).contains(p) <==> by_number(found).to_multiset().count(p) > 0);
}

/// A part that was stored is listed: with its number, with the number of its bytes, and with the
/// entity tag that its upload was answered with, which is the quoted MD5 of its bytes. No file that
/// can be read makes the list fail.
pub proof fn stored_part_is_listed(
    fs: &Filesystem,
    id: &str,
    n: i32,
    tmp: String,
    opened: (PlainPartUpload, Plan),
    body: BodyDigest,
    bytes: Seq<u8>,
    stored: Result<Plan, StorageError>,
    entries: Vec<Result<PlainPartEntry, IoError>>,
    i: int,
    r: Result<Plan, StorageError>,
)
    requires
        call_ensures(Filesystem::upload_part, (fs, id, n, tmp), opened),
        body.digest@ == md5_of(bytes),
        call_ensures(
            PlainPartUpload::streamed,
            (opened.0, Ok::<BodyDigest, IoError>(body)),
            stored,
        ),
        0 <= i < entries@.len(),
        entries@[i] is Ok,
        stored matches Ok(plan) ==> is_put_at(
            opened.1@,
            plan@,
            id@,
            entries@[i]->Ok_0.name@,
        ),
        holds(entries@[i]->Ok_0, bytes),
        all_readable(entries@),
        call_ensures(
            plain_parts_answer,
            (Ok::<Vec<Result<PlainPartEntry, IoError>>, IoError>(entries),),
            r,
        ),
    ensures
        stored matches Ok(plan) && plan@.last() == (StepView::Finish {
            outcome: OutcomeView::Etag { etag: tag_of(bytes) },
        }),
        r matches Ok(plan) && exists|parts: Seq<PartInfoView>, k: int|
            answers_parts(plan@, parts) && 0 <= k < parts.len() && (
            #[trigger] parts[k]).part_number == n && parts[k].etag == tag_of(bytes) && (bytes.len()
                <= i64::MAX ==> parts[k].size == bytes.len()) && parts[k].last_modified_unix
                == entries@[i]->Ok_0.mtime,
{
    let entry = entries@[i]->Ok_0;
    let steps = stored->Ok_0@;
    let t = choose|t: Seq<char>|
        opened.1@.last() == (StepView::Ask {
            question: QuestionView::StreamFile { at: Place::PlainPart { id: id@, name: t } },
        }) && steps.contains(#[trigger] moved_step(id@, t, entry.name@));
    let k = steps.index_of(moved_step(id@, t, entry.name@));
    assert(k == 0);
    assert(entry.name@ == part_name(n as int));
    lemma_named(n);
    lemma_no_dot(entry.name@);
    lemma_found(entries@);
    let found = plain_parts(entries@)->Ok_0;
    let p = listed_part(entry)->0->Ok_0;
    assert(found.contains(p));
    lemma_same_members(found, p);
    let parts = by_number(found);
    let k = parts.index_of(p);
    let plan = r->Ok_0;
    assert(answers_parts(plan@, parts));
    assert(parts[k].part_number == n);
}

/// A part is written to a file of its own until it is whole: the name of that file has the mark of
/// one that is being written.
pub proof fn part_is_written_aside(
    fs: &Filesystem,
    id: &str,
    n: i32,
    tmp: String,
    opened: (PlainPartUpload, Plan),
)
    requires
        call_ensures(Filesystem::upload_part, (fs, id, n, tmp), opened),
    ensures
        opened.0.part_number == n,
        opened.0.upload_id@ == id@,
        exists|name: Seq<char>, p: int|
            #![trigger occurs_at(name, ".tmp."@, p)]
            opened.1@.last() == (StepView::Ask {
                question: QuestionView::StreamFile { at: Place::PlainPart { id: id@, name } },
            }) && occurs_at(name, ".tmp."@, p),
{
    let name = part_name(n as int) + tmp_suffix(tmp@);
    let p = part_name(n as int).len() as int;
    assert(part_tmp(id@, n as int, tmp@) == (Place::PlainPart { id: id@, name }));
    assert(name.subrange(p, p + ".tmp."@.len()) =~= ".tmp."@);
    assert(occurs_at(name, ".tmp."@, p));
}

/// A file, and none that is being written.
pub open spec fn is_finished_file(entry: PlainPartEntry) -> bool {
    !entry.is_dir && forall|p: int| !#[trigger] occurs_at(entry.name@, ".tmp."@, p)
}

/// What is listed is that of a finished file.
pub open spec fn is_of_a_file(
    part: PartInfoView,
    entries: Seq<Result<PlainPartEntry, IoError>>,
) -> bool {
    exists|i: int|
        0 <= i < entries.len() && is_finished_file((#[trigger] entries[i])->Ok_0)
            && part.last_modified_unix == entries[i]->Ok_0.mtime && (entries[i]->Ok_0.size
            <= i64::MAX ==> part.size == entries[i]->Ok_0.size) && part.etag == seq!['"']
            + hex_text(entries[i]->Ok_0.digest->Ok_0@) + seq!['"']
}

/// The list of parts: the numbers do not descend, every entry is that of a file, and no directory
/// and no file that is being written has one.
pub proof fn parts_are_listed_by_number(
    entries: Vec<Result<PlainPartEntry, IoError>>,
    r: Result<Plan, StorageError>,
    parts: Seq<PartInfoView>,
)
    requires
        call_ensures(
            plain_parts_answer,
            (Ok::<Vec<Result<PlainPartEntry, IoError>>, IoError>(entries),),
            r,
        ),
        all_readable(entries@),
        r matches Ok(plan) && answers_parts(plan@, parts),
    ensures
        forall|i: int, j: int|
            0 <= i < j < parts.len() ==> (#[trigger] parts[i]).part_number <= (
            #[trigger] parts[j]).part_number,
        forall|k: int| 0 <= k < parts.len() ==> is_of_a_file(#[trigger] parts[k], entries@),
{
    lemma_found(entries@);
    let found = plain_parts(entries@)->Ok_0;
    parts_come_out_in_order(found);
    let plan = r->Ok_0;
    assert(plan@[0] == (StepView::Finish {
        outcome: OutcomeView::Parts { parts: by_number(found) },
    }));
    assert(parts == by_number(found));
    assert forall|k: int| 0 <= k < parts.len() implies is_of_a_file(#[trigger] parts[k], entries@) by {
        assert(parts.contains(parts[k]));
        lemma_same_members(found, parts[k]);
        let i = choose|i: int|
            0 <= i < entries@.len() && listed_part((#[trigger] entries@[i])->Ok_0) == Some(
                Ok::<PartInfoView, IoError>(parts[k]),
            );
        let name = entries@[i]->Ok_0.name@;
        assert(!crate::text::has_text(name, ".tmp."@));
        assert forall|p: int| !occurs_at(name, ".tmp."@, p) by {
            if occurs_at(name, ".tmp."@, p) {
                assert(crate::text::stands_at(name, ".tmp."@, p));
            }
        }
        assert(is_finished_file(entries@[i]->Ok_0));
    }
}

/// The parts with a number among others, in their order.
pub open spec fn of_number(list: Seq<PartInfoView>, n: i32) -> Seq<PartInfoView> {
    list.filter(|p: PartInfoView| p.part_number == n)
}

/// What is listed of the files that a scan found, in its order.
pub open spec fn lines_of(entries: Seq<Result<PlainPartEntry, IoError>>) -> Seq<PartInfoView> {
    entries.filter_map(
        |e: Result<PlainPartEntry, IoError>|
            match listed_part(e->Ok_0) {
                Some(Ok(p)) => Some(p),
                _ => None,
            },
    )
}

proof fn lemma_of_number(list: Seq<PartInfoView>, p: PartInfoView, n: i32)
    ensures
        of_number(list.push(p), n) == (if p.part_number == n {
            of_number(list, n).push(p)
        } else {
            of_number(list, n)
        }),
{
    reveal(Seq::filter);
    assert(list.push(p).drop_last() =~= list);
}

proof fn lemma_number_put_in(list: Seq<PartInfoView>, p: PartInfoView, n: i32)
    ensures
        of_number(with_number(list, p), n) == of_number(list.push(p), n),
    decreases list.len(),
{
    lemma_of_number(list, p, n);
    if list.len() > 0 && p.part_number < list.last().part_number {
        let front = list.drop_last();
        let last = list.last();
        lemma_number_put_in(front, p, n);
        lemma_of_number(with_number(front, p), last, n);
        lemma_of_number(front, p, n);
        lemma_of_number(front, last, n);
        assert(front.push(last) =~= list);
    }
}

proof fn lemma_by_number_keeps(list: Seq<PartInfoView>, n: i32)
    ensures
        of_number(by_number(list), n) == of_number(list, n),
    decreases list.len(),
{
    if list.len() > 0 {
        let front = list.drop_last();
        lemma_by_number_keeps(front, n);
        lemma_number_put_in(by_number(front), list.last(), n);
        lemma_of_number(by_number(front), list.last(), n);
        lemma_of_number(front, list.last(), n);
        assert(front.push(list.last()) =~= list);
    }
}

proof fn lemma_lines(entries: Seq<Result<PlainPartEntry, IoError>>)
    requires
        plain_parts(entries) is Ok,
    ensures
        plain_parts(entries)->Ok_0 == lines_of(entries),
    decreases entries.len(),
{
    if entries.len() > 0 {
        let front = entries.drop_last();
        lemma_lines(front);
        let last = entries.last();
        assert(lines_of(entries) =~= match listed_part(last->Ok_0) {
            Some(Ok(p)) => lines_of(front).push(p),
            _ => lines_of(front),
        });
    }
}

/// Parts with one number are listed in the order in which their files were found, and no file that
/// is listed at all is left out.
pub proof fn parts_of_a_number_keep_their_order(
    entries: Vec<Result<PlainPartEntry, IoError>>,
    r: Result<Plan, StorageError>,
    parts: Seq<PartInfoView>,
    n: i32,
)
    requires
        call_ensures(
            plain_parts_answer,
            (Ok::<Vec<Result<PlainPartEntry, IoError>>, IoError>(entries),),
            r,
        ),
        r matches Ok(plan) && answers_parts(plan@, parts),
    ensures
        of_number(parts, n) == of_number(lines_of(entries@), n),
{
    lemma_lines(entries@);
    let found = lines_of(entries@);
    lemma_by_number_keeps(found, n);
    assert(r->Ok_0@[0] == (StepView::Finish {
        outcome: OutcomeView::Parts { parts: by_number(found) },
    }));
}

} // verus!
