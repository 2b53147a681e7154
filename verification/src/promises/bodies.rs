//! Bodies: which bytes are read of them, and what is recorded of them.

use vstd::prelude::*;
use crate::aligned::{buffer_is_whole_pages, skew_for, AlignedBuf};
use crate::blob::{
    md5_digest, read_turn, write_turn, BlobInfo, BodyHasher, BodyState, BodyStep, BodyWriter,
};
use crate::metadata::{copy_parts, part_refs, ObjectMetadata, PartRef};
use crate::outside::{hex_text, md5_of};
use crate::reader::{body_from, sizes_match, ByteRange, MultipartReader, PlainFileReader};
use crate::types::{IoError, IoErrorKind};

verus! {

/// A range holds the bytes from its start to its end, both included.
pub proof fn range_counts_both_ends(range: &ByteRange, n: u64, empty: bool)
    requires
        range.start <= range.end,
        range.end - range.start < u64::MAX,
        call_ensures(ByteRange::len, (range,), n),
        call_ensures(ByteRange::is_empty, (range,), empty),
    ensures
        n == range.end - range.start + 1,
        !empty,
{
}

/// The bytes from `start` to `end` of a body, both included.
pub open spec fn is_cut_of(bytes: Seq<u8>, body: Seq<u8>, start: int, end: int) -> bool {
    bytes.len() == end - start + 1 && forall|i: int|
        0 <= i < bytes.len() ==> #[trigger] bytes[i] == body[start + i]
}

/// A reader of a file has the whole file before it, or the range that was asked for.
pub proof fn reader_has_the_range_before_it(
    file: Seq<u8>,
    range: Option<ByteRange>,
    r: PlainFileReader,
)
    requires
        file.len() <= u64::MAX,
        range matches Some(b) ==> b.start <= b.end && b.end < u64::MAX,
        call_ensures(PlainFileReader::open, (file.len() as u64, range), r),
    ensures
        range is None ==> r.left(file) == file,
        range matches Some(b) ==> (b.end < file.len() ==> is_cut_of(
            r.left(file),
            file,
            b.start as int,
            b.end as int,
        )),
        range matches Some(b) ==> (b.start < file.len() && b.end >= file.len() ==> is_cut_of(
            r.left(file),
            file,
            b.start as int,
            file.len() - 1,
        )),
        range matches Some(b) ==> (b.start >= file.len() ==> r.left(file).len() == 0),
{
    let left = r.left(file);
    assert(left == crate::reader::selected(file, range));
}

/// Each text of bytes is the one before it and one more part.
pub open spec fn are_heads(contents: Seq<Seq<u8>>, heads: Seq<Seq<u8>>) -> bool {
    &&& heads.len() == contents.len() + 1
    &&& heads[0].len() == 0
    &&& forall|i: int|
        #![trigger contents[i]]
        0 <= i < contents.len() ==> heads[i + 1] == heads[i] + contents[i]
}

proof fn lemma_heads(contents: Seq<Seq<u8>>, heads: Seq<Seq<u8>>, i: int)
    requires
        are_heads(contents, heads),
        0 <= i <= contents.len(),
    ensures
        heads[contents.len() as int] == heads[i] + body_from(contents, i),
    decreases contents.len() - i,
{
    if i < contents.len() {
        let c = contents[i];
        lemma_heads(contents, heads, i + 1);
        assert(heads[i] + c + body_from(contents, i + 1) =~= heads[i] + (c + body_from(
            contents,
            i + 1,
        )));
    } else {
        assert(heads[i] + body_from(contents, i) =~= heads[i]);
    }
}

/// A reader of parts has their bytes before it, one part after the other, or the range of them that
/// was asked for.
pub proof fn parts_reader_has_the_range_before_it(
    parts: Vec<PartRef>,
    contents: Seq<Seq<u8>>,
    heads: Seq<Seq<u8>>,
    range: Option<ByteRange>,
    r: MultipartReader,
)
    requires
        range matches Some(b) ==> b.start <= b.end && b.end - b.start < u64::MAX,
        sizes_match(part_refs(parts@), contents),
        are_heads(contents, heads),
        call_ensures(MultipartReader::new, (parts, range), r),
    ensures
        ({
            let body = heads[contents.len() as int];
            &&& range is None ==> r.left(contents) == body
            &&& range matches Some(b) ==> (b.end < body.len() ==> is_cut_of(
                r.left(contents),
                body,
                b.start as int,
                b.end as int,
            ))
            &&& range matches Some(b) ==> (b.start < body.len() && b.end >= body.len() ==> is_cut_of(
                r.left(contents),
                body,
                b.start as int,
                body.len() - 1,
            ))
            &&& range matches Some(b) ==> (b.start >= body.len() ==> r.left(contents).len() == 0)
        }),
{
    lemma_heads(contents, heads, 0);
    let body = heads[contents.len() as int];
    assert(heads[0] =~= Seq::empty());
    assert(body =~= body_from(contents, 0));
    let left = r.left(contents);
    assert(left == crate::reader::selected(body, range));
}

/// What is recorded of a body: the number of its bytes, and their MD5 in hexadecimal.
pub proof fn body_is_recorded_by_its_digest(
    hasher: BodyHasher,
    writer: BodyWriter,
    id: String,
    a: BlobInfo,
    b: BlobInfo,
    digest: Vec<u8>,
)
    requires
        call_ensures(BodyHasher::finish, (hasher, id), a),
        call_ensures(BodyWriter::finish, (writer, id), b),
        call_ensures(BodyWriter::digest, (writer,), digest),
        hasher@.len() <= u64::MAX,
        writer@.len() <= u64::MAX,
    ensures
        a.blob_id@ == id@,
        a.size == hasher@.len(),
        a.md5_hex@ == hex_text(md5_of(hasher@)),
        b.blob_id@ == id@,
        b.size == writer@.len(),
        b.md5_hex@ == hex_text(md5_of(writer@)),
        digest@ == md5_of(writer@),
{
    assert(a@.blob_id == id@ && b@.blob_id == id@);
    assert(a@.size == hasher@.len() && b@.size == writer@.len());
    assert(a@.md5_hex == hex_text(md5_of(hasher@)));
    assert(b@.md5_hex == hex_text(md5_of(writer@)));
}

/// The digest of bytes.
pub proof fn digest_is_that_of_the_bytes(data: &[u8], r: Vec<u8>)
    requires
        call_ensures(md5_digest, (data,), r),
    ensures
        r@ == md5_of(data@),
        r@.len() == 16,
{
}

/// A buffer begins at a page, has whole pages, one at least, and room for what was asked for, and
/// is less than a page larger than it has to be.
pub proof fn buffer_has_whole_pages(address: usize, skew: usize, size: usize, r: AlignedBuf)
    requires
        call_ensures(skew_for, (address,), skew),
        call_ensures(AlignedBuf::new, (size,), r),
    ensures
        skew < 4096,
        (address + skew) % 4096 == 0,
        r@.len() % 4096 == 0,
        r@.len() >= size,
        r@.len() >= 4096,
        size > 0 ==> r@.len() < size + 4096,
        size == 0 ==> r@.len() == 4096,
{
    buffer_is_whole_pages(size);
}

/// A copy of the parts has the same parts in the same order.
pub proof fn parts_are_copied(given: &Vec<PartRef>, r: Vec<PartRef>)
    requires
        call_ensures(copy_parts, (given,), r),
    ensures
        r@.len() == given@.len(),
        forall|i: int|
            0 <= i < r@.len() ==> (#[trigger] r@[i]).part_number == given@[i].part_number
                && r@[i].path@ == given@[i].path@ && r@[i].size == given@[i].size && r@[i].md5_hex@
                == given@[i].md5_hex@,
{
    assert(part_refs(r@).len() == part_refs(given@).len());
    assert forall|i: int| 0 <= i < r@.len() implies (#[trigger] r@[i]).part_number
        == given@[i].part_number && r@[i].path@ == given@[i].path@ && r@[i].size == given@[i].size
        && r@[i].md5_hex@ == given@[i].md5_hex@ by {
        assert(part_refs(r@)[i] == part_refs(given@)[i]);
        assert(r@[i]@ == given@[i]@);
    }
}

/// An object is stored as parts where its sidecar lists them.
pub proof fn parts_are_told_by_the_sidecar(m: &ObjectMetadata, r: bool)
    requires
        call_ensures(ObjectMetadata::is_multipart, (m,), r),
    ensures
        r <==> m.multipart is Some,
{
}

/// A body that is read: a read that was interrupted is asked for again, any other failure ends the
/// body, and what arrived goes on behind what is in the block. The end of the body comes with a
/// read of nothing: what is in the block is written, if there is anything, behind what was written
/// before.
pub proof fn body_is_read_block_by_block(
    before: BodyWriter,
    after: BodyWriter,
    block: Seq<u8>,
    result: Result<usize, IoError>,
    step: BodyStep,
    filled: int,
)
    requires
        read_turn(before, after, block, result, step),
        before.state() == (BodyState::Filling { filled }),
        0 <= filled < before.cap() <= usize::MAX,
        result matches Ok(n) ==> filled + n <= before.cap(),
        before@.len() + before.cap() <= u64::MAX,
    ensures
        result matches Err(e) ==> after@ == before@ && after.state() == before.state() && step == (
        if e.kind == IoErrorKind::Interrupted {
            BodyStep::Read { from: filled as usize }
        } else {
            BodyStep::Failed(e)
        }),
        result matches Ok(n) ==> {
            &&& n > 0 && filled + n < before.cap() ==> step == (BodyStep::Read {
                from: (filled + n) as usize,
            }) && after@ == before@
            &&& filled + n == 0 ==> step == BodyStep::Sync && after@ == before@
            &&& filled + n > 0 && (n == 0 || filled + n == before.cap()) ==> step == (
            BodyStep::Write {
                from: 0,
                len: (filled + n) as usize,
                offset: before@.len() as u64,
            }) && after@ == before@ + block.take(filled + n)
        },
{
}

/// A body that is written: a write of nothing ends it, as any failure does, and what was not
/// written yet is written next. Once the block is written it is filled again from its beginning.
pub proof fn block_is_written_to_its_end(
    before: BodyWriter,
    after: BodyWriter,
    result: Result<usize, IoError>,
    step: BodyStep,
    done: int,
    len: int,
    offset: int,
)
    requires
        write_turn(before, after, result, step),
        before.state() == (BodyState::Writing { done, len, offset }),
        0 <= done < len <= usize::MAX,
        0 <= offset,
        offset + len <= u64::MAX,
        result matches Ok(n) ==> done + n <= len,
    ensures
        after@ == before@,
        result matches Err(e) ==> step == BodyStep::Failed(e),
        result matches Ok(n) ==> {
            &&& n == 0 ==> (step matches BodyStep::Failed(e) && e.kind == IoErrorKind::WriteZero)
            &&& n > 0 && done + n < len ==> step == (BodyStep::Write {
                from: (done + n) as usize,
                len: len as usize,
                offset: (offset + done + n) as u64,
            })
            &&& n > 0 && done + n == len ==> step == (BodyStep::Read { from: 0 })
        },
{
}

} // verus!
