//! The record of an upload and the table of its parts.

use vstd::prelude::*;
use crate::cas::records::{part_records, PartRefFile, PartRefFileView};
use crate::cas::store::optional_text;
use crate::numbers::{parse_unsigned, parsed_unsigned, part_name, part_stem};
use crate::path::{is_within, within};
use crate::plan::call::{DirState, EntryKind, RefEntry, UploadProbe};
use crate::text::{concat, contains, ends_with, has_text, same};
use crate::types::{IoError, IoErrorKind, MultipartUpload, MultipartUploadView, StorageError};

verus! {

/// The file that marks an upload as completed.
pub const COMPLETED_FILE: &'static str = "completed";

/// The record of an upload.
pub const UPLOAD_FILE: &'static str = "upload.json";

/// The directory of the part records.
pub const PARTS_DIR: &'static str = "parts";

/// What stands where the directory of an upload should be. `found` is its kind, where no link is
/// followed; `dir` and `root` are where it and the data root lead.
pub open spec fn upload_dir_state(
    found: Result<EntryKind, IoError>,
    dir: Option<Seq<char>>,
    root: Option<Seq<char>>,
) -> DirState {
    match found {
        Err(e) => if e.kind == IoErrorKind::NotFound {
            DirState::Missing
        } else {
            DirState::Failed(e)
        },
        Ok(EntryKind::Directory) => if dir is Some && root is Some && !is_within(
            root->0,
            dir->0,
        ) {
            DirState::Foreign
        } else {
            DirState::Present
        },
        Ok(_) => DirState::Foreign,
    }
}

/// What stands where the directory of an upload should be: a link is no directory of ours, and
/// neither is one outside the data root.
pub fn upload_dir(
    found: Result<EntryKind, IoError>,
    dir: &Option<String>,
    root: &Option<String>,
) -> (r: DirState)
    ensures
        r == upload_dir_state(found, optional_text(*dir), optional_text(*root)),
{
    match found {
        Err(e) => if e.kind == IoErrorKind::NotFound {
            DirState::Missing
        } else {
            DirState::Failed(e)
        },
        Ok(EntryKind::Directory) => match (dir, root) {
            (Some(dir), Some(root)) => if within(root.as_str(), dir.as_str()) {
                DirState::Present
            } else {
                DirState::Foreign
            },
            _ => DirState::Present,
        },
        Ok(_) => DirState::Foreign,
    }
}

/// The upload that was found, if it belongs to the bucket and key of the request. Its directory is
/// looked at only the first time.
pub open spec fn matched_upload(
    probe: UploadProbe,
    bucket: Seq<char>,
    key: Seq<char>,
    first: bool,
) -> Result<MultipartUploadView, StorageError> {
    if first && probe.dir == DirState::Foreign {
        Err(StorageError::NoSuchUpload)
    } else if first && probe.dir is Failed {
        Err(StorageError::Io(probe.dir->Failed_0))
    } else if probe.completed {
        Err(StorageError::NoSuchUpload)
    } else {
        match probe.upload {
            Err(e) => if e.kind == IoErrorKind::NotFound {
                Err(StorageError::NoSuchUpload)
            } else {
                Err(StorageError::Io(e))
            },
            Ok(u) => if u@.bucket != bucket || u@.key != key {
                Err(StorageError::NoSuchUpload)
            } else {
                Ok(u@)
            },
        }
    }
}

/// The upload that was found, if it belongs to the bucket and key of the request.
pub fn assert_upload_matches(probe: UploadProbe, bucket: &str, key: &str, first: bool) -> (r: Result<
    MultipartUpload,
    StorageError,
>)
    ensures
        match matched_upload(probe, bucket@, key@, first) {
            Ok(u) => r matches Ok(found) && found@ == u && probe.upload == Ok::<
                MultipartUpload,
                IoError,
            >(found),
            Err(e) => r == Err::<MultipartUpload, StorageError>(e),
        },
{
    if first {
        match probe.dir {
            DirState::Foreign => return Err(StorageError::NoSuchUpload),
            DirState::Failed(e) => return Err(StorageError::Io(e)),
            _ => {},
        }
    }
    if probe.completed {
        return Err(StorageError::NoSuchUpload);
    }
    match probe.upload {
        Err(e) => if e.kind == IoErrorKind::NotFound {
            Err(StorageError::NoSuchUpload)
        } else {
            Err(StorageError::Io(e))
        },
        Ok(u) => if same(u.bucket.as_str(), bucket) && same(u.key.as_str(), key) {
            Ok(u)
        } else {
            Err(StorageError::NoSuchUpload)
        },
    }
}

/// The file name of the record of part `n`.
pub open spec fn ref_name(n: int) -> Seq<char> {
    part_name(n) + ".ref"@
}

/// The file name of a part record while it is written.
pub open spec fn ref_tmp_name(n: int, nonce: Seq<char>) -> Seq<char> {
    part_name(n) + ".ref.tmp."@ + nonce
}

/// The file name of the record of part `n`.
pub fn make_ref_name(n: i32) -> (r: String)
    ensures
        r@ == ref_name(n as int),
{
    let stem = part_stem(n);
    concat(stem.as_str(), ".ref")
}

/// The file name of a part record while it is written.
pub fn make_ref_tmp_name(n: i32, nonce: &str) -> (r: String)
    ensures
        r@ == ref_tmp_name(n as int, nonce@),
{
    let stem = part_stem(n);
    let front = concat(stem.as_str(), ".ref.tmp.");
    concat(front.as_str(), nonce)
}

/// The part that a file of the part directory records: the number in its name has to be the one in
/// its contents, and a file that is being written counts for nothing.
pub open spec fn recorded_part(entry: RefEntry) -> Option<PartRefFileView> {
    let name = entry.name@;
    match entry.part {
        Some(p) => if ".ref"@.is_suffix_of(name) && !has_text(name, ".tmp."@) && parsed_unsigned(
            name.take(name.len() - ".ref"@.len()),
            u32::MAX as nat,
        ) == Some(p@.part_number as nat) {
            Some(p@)
        } else {
            None
        },
        None => None,
    }
}

/// Whether a file of the part directory records a part.
fn records_part(entry: &RefEntry) -> (r: bool)
    ensures
        r == (recorded_part(*entry) is Some),
        r ==> (entry.part matches Some(p) && recorded_part(*entry) == Some(p@)),
{
    match &entry.part {
        Some(p) => {
            if !ends_with(entry.name.as_str(), ".ref") || contains(entry.name.as_str(), ".tmp.") {
                return false;
            }
            proof {
                reveal_strlit(".ref");
                assert(".ref"@.len() == 4);
            }
            let whole: usize = entry.name.as_str().unicode_len();
            let stem = entry.name.as_str().substring_char(0, whole - 4);
            assert(stem@ =~= entry.name@.take(whole - 4));
            match parse_unsigned(stem, 0xffff_ffff) {
                Some(n) => n == p.part_number as u64,
                None => false,
            }
        },
        None => false,
    }
}

/// A table of parts, in the order of their numbers, with `p` put in the place of its number.
pub open spec fn with_part(table: Seq<PartRefFileView>, p: PartRefFileView) -> Seq<PartRefFileView>
    decreases table.len(),
{
    if table.len() == 0 {
        seq![p]
    } else if table.last().part_number < p.part_number {
        table.push(p)
    } else if table.last().part_number == p.part_number {
        table.drop_last().push(p)
    } else {
        with_part(table.drop_last(), p).push(table.last())
    }
}

/// The parts that the files of a part directory record, in the order of their numbers. The last
/// file for a number counts.
pub open spec fn part_table(entries: Seq<RefEntry>) -> Seq<PartRefFileView>
    decreases entries.len(),
{
    if entries.len() == 0 {
        Seq::empty()
    } else {
        let front = part_table(entries.drop_last());
        match recorded_part(entries.last()) {
            Some(p) => with_part(front, p),
            None => front,
        }
    }
}

/// The numbers of a table ascend.
pub open spec fn ascending(table: Seq<PartRefFileView>) -> bool {
    forall|i: int, j: int|
        0 <= i < j < table.len() ==> (#[trigger] table[i]).part_number < (
        #[trigger] table[j]).part_number
}

/// The part with a number.
pub open spec fn part_at(table: Seq<PartRefFileView>, n: int) -> Option<PartRefFileView>
    decreases table.len(),
{
    if table.len() == 0 {
        None
    } else if table.last().part_number == n {
        Some(table.last())
    } else {
        part_at(table.drop_last(), n)
    }
}

pub proof fn lemma_with_part(table: Seq<PartRefFileView>, p: PartRefFileView)
    requires
        ascending(table),
    ensures
        ascending(with_part(table, p)),
        forall|n: int|
            #[trigger] part_at(with_part(table, p), n) == (if n == p.part_number {
                Some(p)
            } else {
                part_at(table, n)
            }),
        forall|q: PartRefFileView|
            with_part(table, p).contains(q) ==> q == p || #[trigger] table.contains(q),
        forall|i: int|
            0 <= i < with_part(table, p).len() && table.len() > 0 ==> (
            #[trigger] with_part(table, p)[i]).part_number <= (if table.last().part_number
                < p.part_number {
                p.part_number
            } else {
                table.last().part_number
            }),
    decreases table.len(),
{
    let all = with_part(table, p);
    if table.len() == 0 {
        assert(all.drop_last() =~= Seq::empty());
        assert forall|n: int| #[trigger] part_at(all, n) == (if n == p.part_number {
            Some(p)
        } else {
            part_at(table, n)
        }) by {
            assert(part_at(all.drop_last(), n) is None);
        }
    } else {
        let front = table.drop_last();
        assert(ascending(front));
        lemma_with_part(front, p);
        if table.last().part_number < p.part_number {
            assert(all.drop_last() =~= table);
        } else if table.last().part_number == p.part_number {
            assert(all.drop_last() =~= front);
        } else {
            let early = with_part(front, p);
            assert(all.drop_last() =~= early);
            assert forall|i: int| 0 <= i < early.len() implies (#[trigger] early[i]).part_number
                < table.last().part_number by {
                if front.len() > 0 {
                    assert(front.last() == table[table.len() - 2]);
                }
            }
        }
        assert forall|n: int| #[trigger] part_at(all, n) == (if n == p.part_number {
            Some(p)
        } else {
            part_at(table, n)
        }) by {
            assert(part_at(with_part(front, p), n) == (if n == p.part_number {
                Some(p)
            } else {
                part_at(front, n)
            }));
            assert(part_at(table, n) == (if table.last().part_number == n {
                Some(table.last())
            } else {
                part_at(front, n)
            }));
            assert(part_at(all, n) == (if all.last().part_number == n {
                Some(all.last())
            } else {
                part_at(all.drop_last(), n)
            }));
        }
        assert forall|q: PartRefFileView| all.contains(q) implies q == p
            || #[trigger] table.contains(q) by {
            let i = choose|i: int| 0 <= i < all.len() && all[i] == q;
            if table.last().part_number > p.part_number {
                let early = with_part(front, p);
                if i < early.len() {
                    assert(early.contains(early[i]));
                    if q != p {
                        assert(front.contains(q));
                        let j = choose|j: int| 0 <= j < front.len() && front[j] == q;
                        assert(table[j] == q);
                    }
                } else {
                    assert(table[table.len() - 1] == q);
                }
            } else if i < all.len() - 1 {
                assert(table[i] == q);
            }
        }
    }
}

/// The table of parts is in the order of the numbers, each number stands in it once, and it holds
/// nothing that no file records.
pub proof fn part_table_is_ordered(entries: Seq<RefEntry>)
    ensures
        ascending(part_table(entries)),
        forall|q: PartRefFileView|
            #[trigger] part_table(entries).contains(q) ==> exists|i: int|
                0 <= i < entries.len() && recorded_part(#[trigger] entries[i]) == Some(q),
    decreases entries.len(),
{
    if entries.len() > 0 {
        let front = entries.drop_last();
        part_table_is_ordered(front);
        let table = part_table(entries);
        if let Some(p) = recorded_part(entries.last()) {
            lemma_with_part(part_table(front), p);
        }
        assert forall|q: PartRefFileView| #[trigger] table.contains(q) implies exists|i: int|
            0 <= i < entries.len() && recorded_part(#[trigger] entries[i]) == Some(q) by {
            if part_table(front).contains(q) {
                let i = choose|i: int|
                    0 <= i < front.len() && recorded_part(#[trigger] front[i]) == Some(q);
                assert(recorded_part(entries[i]) == Some(q));
            } else {
                assert(recorded_part(entries[entries.len() - 1]) == Some(q));
            }
        }
    }
}

/// The part that counts for a number is the one that the last file for it records.
pub proof fn last_record_counts(entries: Seq<RefEntry>, n: int, i: int)
    requires
        0 <= i < entries.len(),
        recorded_part(entries[i]) matches Some(p) && p.part_number == n,
        forall|j: int|
            i < j < entries.len() ==> (recorded_part(#[trigger] entries[j]) matches Some(p)
                ==> p.part_number != n),
    ensures
        part_at(part_table(entries), n) == recorded_part(entries[i]),
    decreases entries.len(),
{
    let front = entries.drop_last();
    part_table_is_ordered(front);
    if let Some(p) = recorded_part(entries.last()) {
        lemma_with_part(part_table(front), p);
    }
    if i < entries.len() - 1 {
        assert(entries[entries.len() - 1] == entries.last());
        last_record_counts(front, n, i);
    }
}

/// Puts a part into a table in the order of the numbers.
fn insert_part(table: &mut Vec<PartRefFile>, p: PartRefFile)
    requires
        ascending(part_records(old(table)@)),
    ensures
        part_records(final(table)@) == with_part(part_records(old(table)@), p@),
{
    let ghost before = part_records(table@);
    let ghost added = p@;
    let mut at: usize = table.len();
    assert(before.take(at as int) =~= before);
    assert(with_part(before, added) =~= with_part(before.take(at as int), added) + before.skip(
        at as int,
    ));
    while at > 0 && table[at - 1].part_number > p.part_number
        invariant
            at <= table@.len(),
            before == part_records(table@),
            added == p@,
            with_part(before, added) == with_part(before.take(at as int), added) + before.skip(
                at as int,
            ),
        decreases at,
    {
        proof {
            let t = before.take(at as int);
            assert(t.last() == table@[at - 1]@);
            assert(t.drop_last() =~= before.take(at - 1));
            assert(with_part(t.drop_last(), added).push(t.last()) + before.skip(at as int)
                =~= with_part(t.drop_last(), added) + before.skip(at - 1));
        }
        at = at - 1;
    }
    let ghost t = before.take(at as int);
    if at > 0 && table[at - 1].part_number == p.part_number {
        table.set(at - 1, p);
        proof {
            assert(t.last() == before[at - 1]);
            assert(part_records(table@) =~= with_part(t, added) + before.skip(at as int));
        }
    } else {
        proof {
            if at > 0 {
                assert(t.last() == before[at - 1]);
            }
            assert(with_part(t, added) =~= t.push(added));
        }
        table.insert(at, p);
        proof {
            assert(part_records(table@) =~= t.push(added) + before.skip(at as int));
        }
    }
}

/// The parts that the files of a part directory record. A directory that is not there holds none.
pub open spec fn stored_table(refs: Result<Vec<RefEntry>, IoError>) -> Result<
    Seq<PartRefFileView>,
    StorageError,
> {
    match refs {
        Ok(entries) => Ok(part_table(entries@)),
        Err(e) => if e.kind == IoErrorKind::NotFound {
            Ok(Seq::empty())
        } else {
            Err(StorageError::Io(e))
        },
    }
}

/// The parts that the files of a part directory record.
pub fn read_part_refs(refs: Result<Vec<RefEntry>, IoError>) -> (r: Result<
    Vec<PartRefFile>,
    StorageError,
>)
    ensures
        match stored_table(refs) {
            Ok(table) => r matches Ok(found) && part_records(found@) == table && ascending(table),
            Err(e) => r == Err::<Vec<PartRefFile>, StorageError>(e),
        },
{
    let mut table: Vec<PartRefFile> = Vec::new();
    assert(part_records(table@) =~= Seq::empty());
    let entries = match refs {
        Ok(entries) => entries,
        Err(e) => {
            if e.kind == IoErrorKind::NotFound {
                return Ok(table);
            }
            return Err(StorageError::Io(e));
        },
    };
    let mut i: usize = 0;
    assert(entries@.take(0) =~= Seq::empty());
    while i < entries.len()
        invariant
            i <= entries@.len(),
            refs matches Ok(given) && given == entries,
            part_records(table@) == part_table(entries@.take(i as int)),
        decreases entries@.len() - i,
    {
        proof {
            let t = entries@.take(i + 1);
            assert(t.drop_last() =~= entries@.take(i as int));
            assert(t.last() == entries@[i as int]);
            part_table_is_ordered(entries@.take(i as int));
        }
        if records_part(&entries[i]) {
            if let Some(p) = &entries[i].part {
                insert_part(&mut table, p.clone());
            }
        }
        i = i + 1;
    }
    proof {
        assert(entries@.take(i as int) =~= entries@);
        part_table_is_ordered(entries@);
    }
    Ok(table)
}

/// The blobs of the parts of a table.
pub open spec fn table_blobs(table: Seq<PartRefFileView>) -> Seq<Seq<char>> {
    Seq::new(table.len(), |i: int| table[i].blob_id)
}

/// The blobs of the parts of a table.
pub fn blobs_of_parts(table: &Vec<PartRefFile>) -> (r: Vec<String>)
    ensures
        crate::text::texts(r@) == table_blobs(part_records(table@)),
{
    let mut out: Vec<String> = Vec::new();
    let mut i: usize = 0;
    while i < table.len()
        invariant
            i <= table@.len(),
            out@.len() == i,
            forall|j: int| 0 <= j < i ==> (#[trigger] out@[j])@ == table@[j].blob_id@,
        decreases table@.len() - i,
    {
        out.push(table[i].blob_id.clone());
        i = i + 1;
    }
    assert(crate::text::texts(out@) =~= table_blobs(part_records(table@)));
    out
}

/// Finds the part with a number.
pub fn find_part(table: &Vec<PartRefFile>, n: i32) -> (r: Option<usize>)
    ensures
        match r {
            Some(i) => i < table@.len() && part_at(part_records(table@), n as int) == Some(
                table@[i as int]@,
            ),
            None => part_at(part_records(table@), n as int) is None,
        },
{
    let ghost all = part_records(table@);
    let mut left: usize = table.len();
    assert(all.take(left as int) =~= all);
    while left > 0
        invariant
            left <= table@.len(),
            all == part_records(table@),
            part_at(all, n as int) == part_at(all.take(left as int), n as int),
        decreases left,
    {
        proof {
            let t = all.take(left as int);
            assert(t.last() == table@[left - 1]@);
            assert(t.drop_last() =~= all.take(left - 1));
        }
        if n >= 0 && table[left - 1].part_number == n as u32 {
            return Some(left - 1);
        }
        left = left - 1;
    }
    None
}

} // verus!
