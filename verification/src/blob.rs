//! Blobs: immutable files that hold the bytes of objects, named by UUIDs.

use vstd::prelude::*;
use vstd::utf8::*;
use crate::outside::{
    hex_encode, hex_text, is_canonical_uuid, is_hex, is_hyphen_position, is_uuid_text, md5_absorbed,
    md5_finalize, md5_new, md5_of, md5_update, uuid_parses, uuid_v4,
};
use crate::path::{join_path, lemma_join_all, path_join_all};
use crate::text::{chars_of, join, lemma_split_join, split, texts};
use crate::types::{IoError, IoErrorKind};

verus! {

/// The directory of the blobs of a bucket.
pub const BLOBS_DIR: &'static str = "blobs";

/// A blob that was written: its id, its size and the MD5 of its bytes.
#[derive(Debug)]
pub struct BlobInfo {
    pub blob_id: String,
    pub size: u64,
    /// In lower-case hexadecimal, without quotes.
    pub md5_hex: String,
}

#[verifier::ext_equal]
pub struct BlobInfoView {
    pub blob_id: Seq<char>,
    pub size: u64,
    pub md5_hex: Seq<char>,
}

impl View for BlobInfo {
    type V = BlobInfoView;

    open spec fn view(&self) -> BlobInfoView {
        BlobInfoView { blob_id: self.blob_id@, size: self.size, md5_hex: self.md5_hex@ }
    }
}

/// The first two bytes, if a character ends behind them.
pub open spec fn two_bytes(bytes: Seq<u8>) -> Option<Seq<char>> {
    if is_char_boundary(bytes, 2) {
        Some(decode_utf8(bytes.subrange(0, 2)))
    } else {
        None
    }
}

/// The directories that a blob is spread over: bytes one and two of its id, then three and four,
/// `00` where the id has no such bytes.
pub open spec fn fanout(id: Seq<char>) -> (Seq<char>, Seq<char>) {
    let bytes = encode_utf8(id);
    match two_bytes(bytes) {
        Some(first) => (
            first,
            match two_bytes(bytes.subrange(2, bytes.len() as int)) {
                Some(second) => second,
                None => "00"@,
            },
        ),
        None => ("00"@, "00"@),
    }
}

/// The components of a blob's path below its bucket.
pub open spec fn blob_components(id: Seq<char>) -> Seq<Seq<char>> {
    seq![BLOBS_DIR@, fanout(id).0, fanout(id).1, id]
}

/// Where a blob lies.
pub open spec fn blob_location(bucket_root: Seq<char>, id: Seq<char>) -> Seq<char> {
    path_join_all(bucket_root, blob_components(id))
}

/// The first two bytes of `s`, and what follows them.
fn leading_bytes(s: &str) -> (r: Option<(&str, &str)>)
    ensures
        match r {
            Some(p) => two_bytes(encode_utf8(s@)) == Some(p.0@) && encode_utf8(p.1@)
                == encode_utf8(s@).subrange(2, encode_utf8(s@).len() as int),
            None => two_bytes(encode_utf8(s@)) is None,
        },
{
    if !s.is_char_boundary(2) {
        return None;
    }
    let (front, back) = s.split_at(2);
    proof {
        encode_utf8_decode_utf8(front@);
    }
    Some((front, back))
}

/// Where a blob lies below its bucket.
pub fn blob_path(bucket_root: &str, blob_id: &str) -> (r: String)
    ensures
        r@ == blob_location(bucket_root@, blob_id@),
{
    let (first, second) = match leading_bytes(blob_id) {
        Some((first, rest)) => match leading_bytes(rest) {
            Some((second, _)) => (first, second),
            None => (first, "00"),
        },
        None => ("00", "00"),
    };
    let base = join_path(bucket_root, BLOBS_DIR);
    let outer = join_path(base.as_str(), first);
    let inner = join_path(outer.as_str(), second);
    let out = join_path(inner.as_str(), blob_id);
    proof {
        let c = blob_components(blob_id@);
        reveal_with_fuel(path_join_all, 5);
        assert(c.drop_last() =~= seq![BLOBS_DIR@, first@, second@]);
        assert(c.drop_last().drop_last() =~= seq![BLOBS_DIR@, first@]);
        assert(c.drop_last().drop_last().drop_last() =~= seq![BLOBS_DIR@]);
        assert(c.drop_last().drop_last().drop_last().drop_last() =~= Seq::empty());
    }
    out
}

/// Whether `id` names a blob: hyphenated lower-case hexadecimal, 8-4-4-4-12.
pub fn is_valid_blob_id(id: &str) -> (r: bool)
    ensures
        r == is_canonical_uuid(id@),
{
    if !uuid_parses(id) {
        return false;
    }
    let chars = chars_of(id);
    if chars.len() != 36 {
        return false;
    }
    let mut i: usize = 0;
    while i < 36
        invariant
            i <= 36,
            chars@ == id@,
            id@.len() == 36,
            is_uuid_text(id@),
            forall|j: int| 0 <= j < i ==> !('A' <= #[trigger] id@[j] && id@[j] <= 'F'),
        decreases 36 - i,
    {
        let c: char = chars[i];
        if 'A' <= c && c <= 'F' {
            assert(id@[i as int] == c);
            return false;
        }
        i = i + 1;
    }
    true
}

/// A fresh blob id.
pub fn new_blob_id() -> (r: String)
    ensures
        is_canonical_uuid(r@),
{
    uuid_v4()
}

/// The directories whose entries lead to a blob, from the innermost up to the blob directory.
pub open spec fn blob_dirs(bucket_root: Seq<char>, id: Seq<char>) -> Seq<Seq<char>> {
    let c = blob_components(id);
    seq![
        path_join_all(bucket_root, c.take(3)),
        path_join_all(bucket_root, c.take(2)),
        path_join_all(bucket_root, c.take(1)),
    ]
}

/// The directories that have to be synced before a manifest may name the blob, in that order.
pub fn fsync_blob_dir(bucket_root: &str, blob_id: &str) -> (r: Vec<String>)
    ensures
        texts(r@) == blob_dirs(bucket_root@, blob_id@),
{
    let (first, second) = match leading_bytes(blob_id) {
        Some((first, rest)) => match leading_bytes(rest) {
            Some((second, _)) => (first, second),
            None => (first, "00"),
        },
        None => ("00", "00"),
    };
    let base = join_path(bucket_root, BLOBS_DIR);
    let outer = join_path(base.as_str(), first);
    let inner = join_path(outer.as_str(), second);
    proof {
        let c = blob_components(blob_id@);
        reveal_with_fuel(path_join_all, 4);
        assert(c.take(3).drop_last() =~= c.take(2));
        assert(c.take(2).drop_last() =~= c.take(1));
        assert(c.take(1).drop_last() =~= Seq::empty());
    }
    let mut out: Vec<String> = Vec::new();
    out.push(inner);
    out.push(outer);
    out.push(base);
    assert(texts(out@) =~= blob_dirs(bucket_root@, blob_id@));
    out
}

/// The MD5 of a body that arrives in blocks, taken in one pass.
pub struct BodyHasher {
    hasher: md5::Md5,
    size: u64,
}

impl View for BodyHasher {
    type V = Seq<u8>;

    closed spec fn view(&self) -> Seq<u8> {
        md5_absorbed(self.hasher)
    }
}

impl BodyHasher {
    pub closed spec fn wf(&self) -> bool {
        self.size == self@.len()
    }

    pub fn new() -> (r: BodyHasher)
        ensures
            r.wf(),
            r@ == Seq::<u8>::empty(),
    {
        BodyHasher { hasher: md5_new(), size: 0 }
    }

    /// The number of bytes taken in, which is the offset at which the next block is written.
    pub fn written(&self) -> (r: u64)
        requires
            self.wf(),
        ensures
            r == self@.len(),
    {
        self.size
    }

    /// Takes in one more block.
    pub fn push(&mut self, block: &[u8])
        requires
            old(self).wf(),
            old(self)@.len() + block@.len() <= u64::MAX,
        ensures
            final(self).wf(),
            final(self)@ == old(self)@ + block@,
    {
        md5_update(&mut self.hasher, block);
        self.size = self.size + block.len() as u64;
    }

    /// The digest of the whole body.
    pub fn digest(self) -> (r: Vec<u8>)
        ensures
            r@ == md5_of(self@),
            r@.len() == 16,
    {
        md5_finalize(self.hasher)
    }

    /// The blob that holds the whole body.
    pub fn finish(self, blob_id: String) -> (r: BlobInfo)
        requires
            self.wf(),
        ensures
            r@ == (BlobInfoView {
                blob_id: blob_id@,
                size: self@.len() as u64,
                md5_hex: hex_text(md5_of(self@)),
            }),
    {
        let size: u64 = self.size;
        let digest = md5_finalize(self.hasher);
        BlobInfo { blob_id, size, md5_hex: hex_encode(digest.as_slice()) }
    }
}

/// The MD5 digest of `data`.
pub fn md5_digest(data: &[u8]) -> (r: Vec<u8>)
    ensures
        r@ == md5_of(data@),
        r@.len() == 16,
{
    let mut hasher = BodyHasher::new();
    md5_update(&mut hasher.hasher, data);
    assert(md5_absorbed(hasher.hasher) =~= data@);
    md5_finalize(hasher.hasher)
}

/// What filling a block asks for next.
#[derive(Clone, Copy, PartialEq, Eq, Structural, Debug)]
pub enum FillStep {
    /// Read on into the block from this position.
    Read { from: usize },
    /// The block holds this many bytes; fewer than its size means the end of the body.
    Full { len: usize },
    Failed(IoError),
}

/// Fills a block from a body that may hand out fewer bytes than asked for.
#[derive(Debug)]
pub struct BlockFill {
    filled: usize,
    cap: usize,
}

impl BlockFill {
    pub closed spec fn wf(&self) -> bool {
        self.filled <= self.cap
    }

    pub closed spec fn filled(&self) -> int {
        self.filled as int
    }

    pub closed spec fn cap(&self) -> int {
        self.cap as int
    }

    /// The step that a block of this filling is at.
    pub open spec fn step(&self) -> FillStep {
        if self.filled() < self.cap() {
            FillStep::Read { from: self.filled() as usize }
        } else {
            FillStep::Full { len: self.filled() as usize }
        }
    }

    pub fn new(cap: usize) -> (r: (BlockFill, FillStep))
        ensures
            r.0.wf(),
            r.0.cap() == cap,
            r.0.filled() == 0,
            r.1 == r.0.step(),
    {
        let fill = BlockFill { filled: 0, cap };
        let step = if cap > 0 { FillStep::Read { from: 0 } } else { FillStep::Full { len: 0 } };
        (fill, step)
    }

    /// Goes on after a read: an interrupted one is tried again, an empty one is the end of the
    /// body, any other failure ends the filling.
    pub fn on_read(&mut self, result: Result<usize, IoError>) -> (r: FillStep)
        requires
            old(self).wf(),
            result matches Ok(n) ==> old(self).filled() + n <= old(self).cap(),
        ensures
            final(self).wf(),
            final(self).cap() == old(self).cap(),
            match result {
                Ok(n) => final(self).filled() == old(self).filled() + n && r == (if n == 0 {
                    FillStep::Full { len: old(self).filled() as usize }
                } else {
                    final(self).step()
                }),
                Err(e) => final(self).filled() == old(self).filled() && r == (if e.kind
                    == IoErrorKind::Interrupted {
                    old(self).step()
                } else {
                    FillStep::Failed(e)
                }),
            },
    {
        match result {
            Ok(n) => {
                self.filled = self.filled + n;
                if n > 0 && self.filled < self.cap {
                    FillStep::Read { from: self.filled }
                } else {
                    FillStep::Full { len: self.filled }
                }
            },
            Err(e) => {
                if e.kind == IoErrorKind::Interrupted {
                    if self.filled < self.cap {
                        FillStep::Read { from: self.filled }
                    } else {
                        FillStep::Full { len: self.filled }
                    }
                } else {
                    FillStep::Failed(e)
                }
            },
        }
    }
}

/// What writing a block asks for next.
#[derive(Clone, Copy, PartialEq, Eq, Structural, Debug)]
pub enum WriteStep {
    /// Write the block from this position on at this offset of the file.
    Write { from: usize, offset: u64 },
    Written,
    Failed(IoError),
}

/// Writes a whole block at an offset of a file that may take fewer bytes than handed to it.
#[derive(Debug)]
pub struct BlockWrite {
    done: usize,
    len: usize,
    offset: u64,
}

impl BlockWrite {
    pub closed spec fn wf(&self) -> bool {
        self.done <= self.len && self.offset + self.len <= u64::MAX
    }

    pub closed spec fn done(&self) -> int {
        self.done as int
    }

    pub closed spec fn len(&self) -> int {
        self.len as int
    }

    pub closed spec fn offset(&self) -> int {
        self.offset as int
    }

    /// The step that a write of this progress is at: byte `i` of the block goes to `offset + i`.
    pub open spec fn step(&self) -> WriteStep {
        if self.done() < self.len() {
            WriteStep::Write {
                from: self.done() as usize,
                offset: (self.offset() + self.done()) as u64,
            }
        } else {
            WriteStep::Written
        }
    }

    pub fn new(len: usize, offset: u64) -> (r: (BlockWrite, WriteStep))
        requires
            offset + len <= u64::MAX,
        ensures
            r.0.wf(),
            r.0.done() == 0,
            r.0.len() == len,
            r.0.offset() == offset,
            r.1 == r.0.step(),
    {
        let write = BlockWrite { done: 0, len, offset };
        let step = if len > 0 { WriteStep::Write { from: 0, offset } } else { WriteStep::Written };
        (write, step)
    }

    /// Goes on after a write; one that wrote nothing is a failure.
    pub fn on_write(&mut self, result: Result<usize, IoError>) -> (r: WriteStep)
        requires
            old(self).wf(),
            result matches Ok(n) ==> old(self).done() + n <= old(self).len(),
        ensures
            final(self).wf(),
            final(self).len() == old(self).len(),
            final(self).offset() == old(self).offset(),
            match result {
                Ok(n) => final(self).done() == old(self).done() + n && r == (if n == 0 {
                    WriteStep::Failed(IoError { kind: IoErrorKind::WriteZero, code: 0 })
                } else {
                    final(self).step()
                }),
                Err(e) => final(self).done() == old(self).done() && r == WriteStep::Failed(e),
            },
    {
        match result {
            Ok(n) => {
                self.done = self.done + n;
                if n == 0 {
                    WriteStep::Failed(IoError { kind: IoErrorKind::WriteZero, code: 0 })
                } else if self.done < self.len {
                    WriteStep::Write { from: self.done, offset: self.offset + self.done as u64 }
                } else {
                    WriteStep::Written
                }
            },
            Err(e) => WriteStep::Failed(e),
        }
    }
}

/// What storing a body asks for next.
#[derive(Clone, Copy, PartialEq, Eq, Structural, Debug)]
pub enum BodyStep {
    /// Read on from the body into the block, from this position of the block on.
    Read { from: usize },
    /// Write the block from `from` up to `len` at this offset of the file.
    Write { from: usize, len: usize, offset: u64 },
    /// All of the body is written: make the file durable.
    Sync,
    Failed(IoError),
}

/// How far storing a body has got.
pub enum BodyState {
    /// The block holds that many bytes.
    Filling { filled: int },
    /// So many of the first `len` bytes of the block are written; the block goes to `offset`.
    Writing { done: int, len: int, offset: int },
    Ended,
}

/// Stores a body in a file, block by block, and takes its digest on the way. The body is never
/// held in memory as a whole.
pub struct BodyWriter {
    cap: usize,
    fill: BlockFill,
    write: Option<BlockWrite>,
    ended: bool,
    hasher: BodyHasher,
}

impl View for BodyWriter {
    type V = Seq<u8>;

    /// The bytes that were taken in.
    closed spec fn view(&self) -> Seq<u8> {
        self.hasher@
    }
}

/// The step that comes once a block is full, or the body is at its end.
pub open spec fn full_block_step(taken: Seq<u8>, len: int) -> BodyStep {
    if len == 0 {
        BodyStep::Sync
    } else if taken.len() + len > u64::MAX {
        BodyStep::Failed(IoError { kind: IoErrorKind::Other, code: 0 })
    } else {
        BodyStep::Write { from: 0, len: len as usize, offset: taken.len() as u64 }
    }
}

/// What a read into the block does. A full block is taken in and written, and so is what came
/// before the end of the body; an interrupted read is tried again.
pub open spec fn read_turn(
    before: BodyWriter,
    after: BodyWriter,
    block: Seq<u8>,
    result: Result<usize, IoError>,
    step: BodyStep,
) -> bool {
    let filled = before.state()->filled;
    &&& after.cap() == before.cap()
    &&& match result {
        Err(e) => {
            &&& after@ == before@
            &&& after.state() == before.state()
            &&& step == (if e.kind == IoErrorKind::Interrupted {
                before.step()
            } else {
                BodyStep::Failed(e)
            })
        },
        Ok(n) => if n > 0 && filled + n < before.cap() {
            &&& after@ == before@
            &&& after.state() == (BodyState::Filling { filled: filled + n })
            &&& step == after.step()
        } else {
            let len = filled + n;
            &&& step == full_block_step(before@, len)
            &&& match step {
                BodyStep::Sync => after@ == before@ && after.state() == BodyState::Ended,
                BodyStep::Write { offset, .. } => after@ == before@ + block.take(len)
                    && after.state() == (BodyState::Writing {
                    done: 0,
                    len,
                    offset: offset as int,
                }),
                _ => after@ == before@ && after.state() == before.state(),
            }
        },
    }
}

/// What a write does. One that wrote nothing is a failure; after the last byte of the block the
/// next one is filled.
pub open spec fn write_turn(
    before: BodyWriter,
    after: BodyWriter,
    result: Result<usize, IoError>,
    step: BodyStep,
) -> bool {
    let s = before.state();
    &&& after.cap() == before.cap()
    &&& after@ == before@
    &&& match result {
        Err(e) => after.state() == s && step == BodyStep::Failed(e),
        Ok(n) => if n == 0 {
            &&& after.state() == s
            &&& step == BodyStep::Failed(IoError { kind: IoErrorKind::WriteZero, code: 0 })
        } else {
            &&& after.state() == (if s->done + n < s->len {
                BodyState::Writing { done: s->done + n, len: s->len, offset: s->offset }
            } else {
                BodyState::Filling { filled: 0 }
            })
            &&& step == after.step()
        },
    }
}

impl BodyWriter {
    pub closed spec fn wf(&self) -> bool {
        &&& self.fill.wf()
        &&& self.fill.cap() == self.cap
        &&& self.hasher.wf()
        &&& self.write matches Some(w) ==> {
            &&& w.wf()
            &&& w.done() < w.len() <= self.cap
            &&& w.offset() + w.len() == self.hasher@.len()
        }
        &&& !self.ended && self.write is None ==> self.fill.filled() < self.cap
    }

    /// The size of the block.
    pub closed spec fn cap(&self) -> int {
        self.cap as int
    }

    pub closed spec fn state(&self) -> BodyState {
        if self.ended {
            BodyState::Ended
        } else {
            match self.write {
                Some(w) => BodyState::Writing { done: w.done(), len: w.len(), offset: w.offset() },
                None => BodyState::Filling { filled: self.fill.filled() },
            }
        }
    }

    /// What is asked for in this state.
    pub open spec fn step(&self) -> BodyStep {
        match self.state() {
            BodyState::Filling { filled } => BodyStep::Read { from: filled as usize },
            BodyState::Writing { done, len, offset } => BodyStep::Write {
                from: done as usize,
                len: len as usize,
                offset: (offset + done) as u64,
            },
            BodyState::Ended => BodyStep::Sync,
        }
    }

    /// Begins to store a body with a block of `cap` bytes.
    pub fn new(cap: usize) -> (r: (BodyWriter, BodyStep))
        requires
            cap > 0,
        ensures
            r.0.wf(),
            r.0.cap() == cap,
            r.0@ == Seq::<u8>::empty(),
            r.0.state() == (BodyState::Filling { filled: 0 }),
            r.1 == r.0.step(),
    {
        let (fill, _) = BlockFill::new(cap);
        let writer = BodyWriter { cap, fill, write: None, ended: false, hasher: BodyHasher::new() };
        (writer, BodyStep::Read { from: 0 })
    }

    /// Goes on after a read into the block.
    pub fn on_read(&mut self, block: &[u8], result: Result<usize, IoError>) -> (r: BodyStep)
        requires
            old(self).wf(),
            old(self).state() is Filling,
            block@.len() == old(self).cap(),
            result matches Ok(n) ==> old(self).state()->filled + n <= old(self).cap(),
        ensures
            final(self).wf(),
            read_turn(*old(self), *final(self), block@, result, r),
    {
        let n: usize = match result {
            Ok(n) => n,
            Err(e) => {
                return if e.kind == IoErrorKind::Interrupted {
                    BodyStep::Read { from: self.fill.filled }
                } else {
                    BodyStep::Failed(e)
                };
            },
        };
        let len: usize = self.fill.filled + n;
        if n > 0 && len < self.cap {
            self.fill.on_read(Ok(n));
            return BodyStep::Read { from: len };
        }
        if len == 0 {
            self.ended = true;
            return BodyStep::Sync;
        }
        let offset: u64 = self.hasher.written();
        if len as u64 > u64::MAX - offset {
            return BodyStep::Failed(IoError { kind: IoErrorKind::Other, code: 0 });
        }
        let data = vstd::slice::slice_subrange(block, 0, len);
        self.hasher.push(data);
        assert(data@ =~= block@.take(len as int));
        let (write, _) = BlockWrite::new(len, offset);
        self.write = Some(write);
        BodyStep::Write { from: 0, len, offset }
    }

    /// Goes on after a write.
    pub fn on_write(&mut self, result: Result<usize, IoError>) -> (r: BodyStep)
        requires
            old(self).wf(),
            old(self).state() is Writing,
            result matches Ok(n) ==> old(self).state()->done + n <= old(self).state()->len,
        ensures
            final(self).wf(),
            write_turn(*old(self), *final(self), result, r),
    {
        let mut write = match self.write.take() {
            Some(write) => write,
            None => return BodyStep::Sync,
        };
        match write.on_write(result) {
            WriteStep::Write { from, offset } => {
                let len: usize = write.len;
                self.write = Some(write);
                BodyStep::Write { from, len, offset }
            },
            WriteStep::Written => {
                let (fill, _) = BlockFill::new(self.cap);
                self.fill = fill;
                BodyStep::Read { from: 0 }
            },
            WriteStep::Failed(e) => {
                self.write = Some(write);
                BodyStep::Failed(e)
            },
        }
    }

    /// The blob that holds the body, once all of it is written.
    pub fn finish(self, blob_id: String) -> (r: BlobInfo)
        requires
            self.wf(),
        ensures
            r@ == (BlobInfoView {
                blob_id: blob_id@,
                size: self@.len() as u64,
                md5_hex: hex_text(md5_of(self@)),
            }),
    {
        self.hasher.finish(blob_id)
    }

    /// The size of the body so far.
    pub fn written(&self) -> (r: u64)
        requires
            self.wf(),
        ensures
            r == self@.len(),
    {
        self.hasher.written()
    }

    /// The digest of the body.
    pub fn digest(self) -> (r: Vec<u8>)
        ensures
            r@ == md5_of(self@),
            r@.len() == 16,
    {
        self.hasher.digest()
    }
}

/// How the body that was read, the block and the file belong together while a body is stored.
pub open spec fn in_step(
    writer: BodyWriter,
    block: Seq<u8>,
    body: Seq<u8>,
    file: Seq<u8>,
) -> bool {
    match writer.state() {
        BodyState::Filling { filled } => file == writer@ && body == writer@ + block.take(filled),
        BodyState::Writing { done, len, offset } => {
            &&& body == writer@
            &&& block.take(len) == writer@.skip(offset)
            &&& file == writer@.take(offset + done)
        },
        BodyState::Ended => body == writer@ && file == writer@,
    }
}

/// Bytes that are read into the block join the body: they are either still in the block or taken
/// into the digest, and nothing is written out of turn.
pub proof fn read_bytes_join_the_body(
    before: BodyWriter,
    after: BodyWriter,
    old_block: Seq<u8>,
    block: Seq<u8>,
    body: Seq<u8>,
    file: Seq<u8>,
    n: usize,
    step: BodyStep,
)
    requires
        before.wf(),
        before.state() is Filling,
        in_step(before, old_block, body, file),
        old_block.len() == before.cap(),
        block.len() == before.cap(),
        before.state()->filled + n <= before.cap(),
        block.take(before.state()->filled) == old_block.take(before.state()->filled),
        read_turn(before, after, block, Ok(n), step),
        !(step is Failed),
    ensures
        in_step(
            after,
            block,
            body + block.subrange(before.state()->filled, before.state()->filled + n),
            file,
        ),
{
    let filled = before.state()->filled;
    let fresh = block.subrange(filled, filled + n);
    assert(block.take(filled) + fresh =~= block.take(filled + n));
    assert(before@ + block.take(filled) + fresh =~= before@ + block.take(filled + n));
    match after.state() {
        BodyState::Filling { .. } => {},
        BodyState::Writing { done, len, offset } => {
            assert(after@.skip(offset) =~= block.take(len));
            assert(after@.take(offset) =~= before@);
        },
        BodyState::Ended => {
            assert(body + fresh =~= before@);
        },
    }
}

/// Bytes that are written go to the end of the file, in the order in which they were read. Once
/// the body is at its end the file holds it, and so does the digest.
pub proof fn taken_bytes_reach_the_file(
    before: BodyWriter,
    after: BodyWriter,
    block: Seq<u8>,
    body: Seq<u8>,
    file: Seq<u8>,
    n: usize,
    step: BodyStep,
)
    requires
        before.wf(),
        before.state() is Writing,
        in_step(before, block, body, file),
        block.len() == before.cap(),
        before.state()->done + n <= before.state()->len,
        write_turn(before, after, Ok(n), step),
        !(step is Failed),
    ensures
        before.step()->offset == file.len(),
        in_step(
            after,
            block,
            body,
            file + block.subrange(before.state()->done, before.state()->done + n),
        ),
{
    let s = before.state();
    let (done, len, offset) = (s->done, s->len, s->Writing_offset);
    let fresh = block.subrange(done, done + n);
    assert(offset + len == before@.len());
    assert(fresh =~= before@.subrange(offset + done, offset + done + n)) by {
        assert forall|i: int| 0 <= i < n implies fresh[i] == before@[offset + done + i] by {
            assert(block.take(len)[done + i] == before@.skip(offset)[done + i]);
        }
    }
    assert(file + fresh =~= before@.take(offset + done + n));
    assert(before@.take(before@.len() as int) =~= before@);
    assert(before@ + block.take(0) =~= before@);
}

/// The first two characters of ASCII text are its first two bytes.
pub proof fn lemma_ascii_front(s: Seq<char>)
    requires
        is_ascii_chars(s),
        s.len() >= 2,
    ensures
        two_bytes(encode_utf8(s)) == Some(s.take(2)),
        encode_utf8(s).subrange(2, encode_utf8(s).len() as int) == encode_utf8(s.skip(2)),
        is_ascii_chars(s.skip(2)),
{
    let bytes = encode_utf8(s);
    is_ascii_chars_encode_utf8(s);
    encode_utf8_valid_utf8(s);
    if s.len() == 2 {
        is_char_boundary_start_end_of_seq(bytes);
    } else {
        let third = bytes[2];
        assert(third < 128) by {
            assert(s[2] as u8 == bytes[2]);
        }
        assert(!is_continuation_byte(third)) by {
            assert(third < 128 ==> (third & 0xc0u8) != 0x80u8) by (bit_vector);
        }
        is_char_boundary_iff_not_is_continuation_byte(bytes, 2);
    }
    is_ascii_chars_encode_utf8(s.take(2));
    is_ascii_chars_encode_utf8(s.skip(2));
    assert(encode_utf8(s.take(2)) =~= bytes.subrange(0, 2)) by {
        assert forall|i: int| 0 <= i < 2 implies encode_utf8(s.take(2))[i] == bytes.subrange(
            0,
            2,
        )[i] by {
            assert(s.take(2)[i] == s[i]);
        }
    }
    assert(encode_utf8(s.skip(2)) =~= bytes.subrange(2, bytes.len() as int)) by {
        assert forall|i: int| 0 <= i < s.len() - 2 implies encode_utf8(s.skip(2))[i]
            == bytes.subrange(2, bytes.len() as int)[i] by {
            assert(s.skip(2)[i] == s[i + 2]);
        }
    }
    encode_utf8_decode_utf8(s.take(2));
}

/// The blob with a valid id lies below its bucket, in the directories that the first four digits
/// of the id name: no such id leads out of the blob directory.
pub proof fn blob_path_stays_below_its_bucket(root: Seq<char>, id: Seq<char>)
    requires
        is_canonical_uuid(id),
        root.len() > 0,
        root.last() != '/',
    ensures
        blob_components(id) == seq![BLOBS_DIR@, id.subrange(0, 2), id.subrange(2, 4), id],
        blob_location(root, id) == root.push('/') + join(blob_components(id), '/'),
        forall|i: int, j: int|
            0 <= i < 4 && 0 <= j < blob_components(id)[i].len() ==> blob_components(id)[i][j] != '/'
                && blob_components(id)[i][j] != '.',
{
    assert forall|i: int| 0 <= i < 36 implies id[i] != '/' && id[i] != '.' && '\0' <= id[i]
        && id[i] <= '\u{7f}' by {
        if is_hyphen_position(i) {
            assert(id[i] == '-');
        } else {
            assert(is_hex(id[i]));
        }
    }
    assert(is_ascii_chars(id));
    lemma_ascii_front(id);
    lemma_ascii_front(id.skip(2));
    assert(id.take(2) =~= id.subrange(0, 2));
    assert(id.skip(2).take(2) =~= id.subrange(2, 4));
    reveal_strlit("blobs");
    let c = blob_components(id);
    assert(c =~= seq![BLOBS_DIR@, id.subrange(0, 2), id.subrange(2, 4), id]);
    assert forall|i: int, j: int| 0 <= i < 4 && 0 <= j < c[i].len() implies c[i][j] != '/' && c[i][j]
        != '.' by {
        if i == 1 {
            assert(c[i][j] == id[j]);
        } else if i == 2 {
            assert(c[i][j] == id[j + 2]);
        } else if i == 3 {
            assert(c[i][j] == id[j]);
        }
    }
    assert forall|i: int| 0 <= i < c.len() implies (#[trigger] c[i]).len() > 0 by {}
    lemma_join_all(root, c);
}

/// The id is the last component of the path.
proof fn lemma_last_component(root: Seq<char>, id: Seq<char>)
    requires
        is_canonical_uuid(id),
        root.len() > 0,
        root.last() != '/',
    ensures
        split(blob_location(root, id).skip(root.len() as int + 1), '/')[3] == id,
{
    blob_path_stays_below_its_bucket(root, id);
    let c = blob_components(id);
    let j = join(c, '/');
    assert((root.push('/') + j).skip(root.len() as int + 1) =~= j);
    assert(c.len() == 4);
    lemma_split_join(c, '/');
}

/// Two valid ids with the same blob path are the same id.
pub proof fn blob_paths_are_distinct(root: Seq<char>, a: Seq<char>, b: Seq<char>)
    requires
        is_canonical_uuid(a),
        is_canonical_uuid(b),
        root.len() > 0,
        root.last() != '/',
        blob_location(root, a) == blob_location(root, b),
    ensures
        a == b,
{
    lemma_last_component(root, a);
    lemma_last_component(root, b);
}

} // verus!
