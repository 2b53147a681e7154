//! Byte ranges, and the readers that stream the body of an object.

use vstd::prelude::*;
use vstd::slice::{slice_subrange, slice_to_vec};
use crate::aligned::{ALIGN, DEFAULT_BUF_SIZE};
use crate::metadata::{part_refs, PartRef, PartRefView};
use crate::numbers::{parse_unsigned, parsed_unsigned};
use crate::text::{chars_of, split, starts_with};

verus! {

/// The bytes from `start` to `end`, both included.
#[derive(Clone, Copy, PartialEq, Eq, Structural, Debug)]
pub struct ByteRange {
    pub start: u64,
    pub end: u64,
}

impl ByteRange {
    /// The range holds at least one byte and its length is a `u64`.
    pub open spec fn wf(&self) -> bool {
        self.start <= self.end && self.end - self.start < u64::MAX
    }

    pub open spec fn count(&self) -> int {
        self.end - self.start + 1
    }

    /// The number of bytes in the range.
    pub fn len(&self) -> (r: u64)
        requires
            self.wf(),
        ensures
            r == self.count(),
    {
        self.end - self.start + 1
    }

    /// Whether the range holds no byte.
    pub fn is_empty(&self) -> (r: bool)
        requires
            self.wf(),
        ensures
            r == (self.count() == 0),
    {
        self.len() == 0
    }
}

/// The characters that count as white space in a header.
pub open spec fn is_space(c: char) -> bool {
    ||| '\u{9}' <= c && c <= '\u{d}'
    ||| c == ' '
    ||| c == '\u{85}'
    ||| c == '\u{a0}'
    ||| c == '\u{1680}'
    ||| '\u{2000}' <= c && c <= '\u{200a}'
    ||| c == '\u{2028}'
    ||| c == '\u{2029}'
    ||| c == '\u{202f}'
    ||| c == '\u{205f}'
    ||| c == '\u{3000}'
}

pub open spec fn trim_front(s: Seq<char>) -> Seq<char>
    decreases s.len(),
{
    if s.len() > 0 && is_space(s[0]) {
        trim_front(s.skip(1))
    } else {
        s
    }
}

pub open spec fn trim_back(s: Seq<char>) -> Seq<char>
    decreases s.len(),
{
    if s.len() > 0 && is_space(s.last()) {
        trim_back(s.drop_last())
    } else {
        s
    }
}

/// `s` without the white space around it.
pub open spec fn trim(s: Seq<char>) -> Seq<char> {
    trim_back(trim_front(s))
}

/// What a range header asks for, before the size of the object is known.
pub enum RequestedRange {
    /// From a position to an included end, or to the end of the object.
    From { start: nat, end: Option<nat> },
    /// The last bytes of the object.
    Last { count: nat },
}

/// The text before and behind the first hyphen.
pub open spec fn around_hyphen(s: Seq<char>) -> Option<(Seq<char>, Seq<char>)> {
    if split(s, '-').len() < 2 {
        None
    } else {
        let first = split(s, '-')[0];
        Some((first, s.skip(first.len() as int + 1)))
    }
}

/// Reads `a-b`, `a-` or `-b`, with white space allowed around the numbers.
pub open spec fn requested_bounds(s: Seq<char>) -> Option<RequestedRange> {
    match around_hyphen(s) {
        None => None,
        Some(ends) => {
            let a = trim(ends.0);
            let b = trim(ends.1);
            if a.len() == 0 {
                match parsed_unsigned(b, u64::MAX as nat) {
                    Some(count) => Some(RequestedRange::Last { count }),
                    None => None,
                }
            } else {
                match parsed_unsigned(a, u64::MAX as nat) {
                    None => None,
                    Some(start) => if b.len() == 0 {
                        Some(RequestedRange::From { start, end: None })
                    } else {
                        match parsed_unsigned(b, u64::MAX as nat) {
                            Some(end) => Some(RequestedRange::From { start, end: Some(end) }),
                            None => None,
                        }
                    },
                }
            }
        },
    }
}

/// The range that a header asks for, `None` if it is not a single byte range.
pub open spec fn requested_range(header: Seq<char>) -> Option<RequestedRange> {
    if "bytes="@.is_prefix_of(header) {
        requested_bounds(trim(header.skip("bytes="@.len() as int)))
    } else {
        None
    }
}

/// The bytes of an object of `size` bytes that a request selects, `None` if it selects none.
pub open spec fn resolved_range(request: RequestedRange, size: u64) -> Option<ByteRange> {
    if size == 0 {
        None
    } else {
        match request {
            RequestedRange::Last { count } => if count == 0 {
                None
            } else {
                Some(
                    ByteRange {
                        start: if count < size { (size - count) as u64 } else { 0 },
                        end: (size - 1) as u64,
                    },
                )
            },
            RequestedRange::From { start, end } => {
                let last = match end {
                    Some(e) => if e < size { e as int } else { size - 1 },
                    None => size - 1,
                };
                if start >= size || last < start {
                    None
                } else {
                    Some(ByteRange { start: start as u64, end: last as u64 })
                }
            },
        }
    }
}

/// Whether `c` counts as white space.
fn space(c: char) -> (r: bool)
    ensures
        r == is_space(c),
{
    ('\u{9}' <= c && c <= '\u{d}') || c == ' ' || c == '\u{85}' || c == '\u{a0}' || c == '\u{1680}'
        || ('\u{2000}' <= c && c <= '\u{200a}') || c == '\u{2028}' || c == '\u{2029}' || c
        == '\u{202f}' || c == '\u{205f}' || c == '\u{3000}'
}

/// `s` without the white space around it.
fn trimmed(s: &str) -> (r: &str)
    ensures
        r@ == trim(s@),
{
    let chars = chars_of(s);
    let mut start: usize = 0;
    assert(s@.skip(0) =~= s@);
    while start < chars.len() && space(chars[start])
        invariant
            start <= chars@.len(),
            chars@ == s@,
            trim_front(s@) == trim_front(s@.skip(start as int)),
        decreases chars@.len() - start,
    {
        assert(s@.skip(start as int).skip(1) =~= s@.skip(start + 1));
        start = start + 1;
    }
    let ghost front = s@.skip(start as int);
    let mut end: usize = chars.len();
    assert(s@.subrange(start as int, end as int) =~= front);
    while end > start && space(chars[end - 1])
        invariant
            start <= end <= chars@.len(),
            chars@ == s@,
            trim_back(front) == trim_back(s@.subrange(start as int, end as int)),
        decreases end,
    {
        let ghost cur = s@.subrange(start as int, end as int);
        assert(cur.drop_last() =~= s@.subrange(start as int, end - 1));
        assert(cur.last() == s@[end - 1]);
        end = end - 1;
    }
    let ghost cur = s@.subrange(start as int, end as int);
    assert(end > start ==> cur.last() == s@[end - 1]);
    s.substring_char(start, end)
}

/// Where the first piece ends.
pub proof fn lemma_first_piece(s: Seq<char>, sep: char)
    ensures
        split(s, sep).len() >= 1,
        split(s, sep).len() == 1 ==> split(s, sep)[0] == s && !s.contains(sep),
        split(s, sep).len() > 1 ==> {
            let n = split(s, sep)[0].len() as int;
            n < s.len() && s[n] == sep && split(s, sep)[0] == s.take(n) && forall|j: int|
                0 <= j < n ==> s[j] != sep
        },
    decreases s.len(),
{
    if s.len() > 0 {
        let front = s.drop_last();
        lemma_first_piece(front, sep);
        if split(front, sep).len() > 1 {
            let n = split(front, sep)[0].len() as int;
            assert(front.take(n) =~= s.take(n));
            assert forall|j: int| 0 <= j < n implies s[j] != sep by {
                assert(s[j] == front[j]);
            }
            assert(s[n] == front[n]);
            assert(split(s, sep)[0] == split(front, sep)[0]);
        } else {
            assert forall|j: int| 0 <= j < front.len() implies s[j] != sep by {
                assert(s[j] == front[j]);
                assert(!front.contains(sep));
            }
            if s.last() == sep {
                assert(split(s, sep)[0] =~= s.take(front.len() as int));
            } else {
                assert(split(s, sep)[0] =~= s);
            }
        }
    }
}

/// The text before and behind the first hyphen.
fn hyphen_ends(s: &str) -> (r: Option<(&str, &str)>)
    ensures
        match r {
            Some(ends) => around_hyphen(s@) == Some((ends.0@, ends.1@)),
            None => around_hyphen(s@) is None,
        },
{
    let chars = chars_of(s);
    let mut i: usize = 0;
    while i < chars.len()
        invariant
            i <= chars@.len(),
            chars@ == s@,
            forall|j: int| 0 <= j < i ==> s@[j] != '-',
        decreases chars@.len() - i,
    {
        if chars[i] == '-' {
            proof {
                lemma_first_piece(s@, '-');
                assert(s@.contains(s@[i as int]));
                let n = split(s@, '-')[0].len() as int;
                assert(n == i);
                assert(s@.subrange(0, i as int) =~= s@.take(i as int));
                assert(s@.subrange(i + 1, s@.len() as int) =~= s@.skip(i + 1));
            }
            let end: usize = chars.len();
            return Some((s.substring_char(0, i), s.substring_char(i + 1, end)));
        }
        i = i + 1;
    }
    proof {
        lemma_first_piece(s@, '-');
    }
    None
}

/// The value of a bound.
fn bound(s: &str) -> (r: Option<u64>)
    ensures
        match r {
            Some(n) => parsed_unsigned(s@, u64::MAX as nat) == Some(n as nat),
            None => parsed_unsigned(s@, u64::MAX as nat) is None,
        },
{
    parse_unsigned(s, u64::MAX)
}

/// Resolves a `Range` header against the size of the object. A header that is no single byte
/// range selects the whole object, which is `Ok(None)`; a range that selects no byte of the object
/// is an error.
pub fn parse_range(header: &str, size: u64) -> (r: Result<Option<ByteRange>, ()>)
    ensures
        r == (match requested_range(header@) {
            None => Ok::<Option<ByteRange>, ()>(None),
            Some(request) => match resolved_range(request, size) {
                Some(range) => Ok::<Option<ByteRange>, ()>(Some(range)),
                None => Err::<Option<ByteRange>, ()>(()),
            },
        }),
{
    if !starts_with(header, "bytes=") {
        return Ok(None);
    }
    let total: usize = header.unicode_len();
    proof {
        reveal_strlit("bytes=");
        assert(header@.subrange(6, header@.len() as int) =~= header@.skip(6));
    }
    let spec = trimmed(header.substring_char(6, total));
    let (a, b) = match hyphen_ends(spec) {
        Some(ends) => ends,
        None => return Ok(None),
    };
    let a = trimmed(a);
    let b = trimmed(b);
    if a.is_empty() {
        let count: u64 = match bound(b) {
            Some(n) => n,
            None => return Ok(None),
        };
        if size == 0 || count == 0 {
            return Err(());
        }
        let start: u64 = if count < size { size - count } else { 0 };
        return Ok(Some(ByteRange { start, end: size - 1 }));
    }
    let start: u64 = match bound(a) {
        Some(n) => n,
        None => return Ok(None),
    };
    let open = b.is_empty();
    let end: u64 = if open {
        u64::MAX
    } else {
        match bound(b) {
            Some(n) => n,
            None => return Ok(None),
        }
    };
    if size == 0 || start >= size {
        return Err(());
    }
    let last: u64 = if end < size { end } else { size - 1 };
    if last < start {
        return Err(());
    }
    Ok(Some(ByteRange { start, end: last }))
}

/// A range that a header resolves to lies inside the object.
pub proof fn resolved_range_is_inside(request: RequestedRange, size: u64)
    ensures
        resolved_range(request, size) matches Some(range) ==> range.start <= range.end && range.end
            < size && range.wf(),
{
}

/// What a reader needs next.
#[derive(Debug)]
pub enum ReadStep {
    /// The read is answered with these bytes; none means the end of the body.
    Bytes(Vec<u8>),
    /// The file of this part has to be opened.
    Open { part: usize },
    /// The open file has to be read at this page-aligned offset, up to `len` bytes.
    Window { offset: u64, len: usize },
}

/// The bytes that a step hands out.
pub open spec fn bytes_of(step: ReadStep) -> Seq<u8> {
    match step {
        ReadStep::Bytes(b) => b@,
        _ => Seq::empty(),
    }
}

/// `data` is what a read of `file` at `offset` gives back.
pub open spec fn is_window(file: Seq<u8>, offset: int, data: Seq<u8>) -> bool {
    0 <= offset && offset + data.len() <= file.len() && data == file.subrange(
        offset,
        offset + data.len(),
    )
}

/// The start of the page that holds `pos`.
pub open spec fn page_of(pos: int) -> int {
    pos - pos % (ALIGN as int)
}

/// The smaller of two numbers.
fn least(a: usize, b: usize) -> (r: usize)
    ensures
        r == if a <= b { a } else { b },
{
    if a <= b {
        a
    } else {
        b
    }
}

/// Streams one file, or a range of it.
#[derive(Debug)]
pub struct PlainFileReader {
    /// The offset in the file that is read next.
    pos: u64,
    /// The offset behind the last byte that is read.
    end: u64,
    /// Bytes that were read but not handed out yet.
    pending: Vec<u8>,
    pending_off: usize,
}

impl PlainFileReader {
    pub closed spec fn wf(&self) -> bool {
        self.pending_off <= self.pending@.len()
    }

    /// The bytes that are read but not handed out.
    pub closed spec fn held(&self) -> Seq<u8> {
        self.pending@.skip(self.pending_off as int)
    }

    pub closed spec fn position(&self) -> int {
        self.pos as int
    }

    pub closed spec fn limit(&self) -> int {
        self.end as int
    }

    /// What the reader still yields of a file with the contents `file`.
    pub open spec fn left(&self, file: Seq<u8>) -> Seq<u8> {
        self.held() + if self.position() < self.limit() {
            file.subrange(self.position(), self.limit())
        } else {
            Seq::empty()
        }
    }

    /// The reader is at the beginning of a file of `size` bytes, or of a range of it.
    pub open spec fn fresh(&self, size: int, range: Option<ByteRange>) -> bool {
        &&& self.wf()
        &&& self.held().len() == 0
        &&& self.position() == (match range {
            Some(b) => b.start as int,
            None => 0,
        })
        &&& self.limit() == (match range {
            Some(b) => if b.end < size { b.end + 1 } else { size },
            None => size,
        })
    }

    /// What the beginning of a read of at most `want` bytes does.
    pub open spec fn begun(&self, want: usize, after: PlainFileReader, step: ReadStep) -> bool {
        &&& after.wf()
        &&& after.position() == self.position()
        &&& after.limit() == self.limit()
        &&& if self.held().len() > 0 {
            let n = if want <= self.held().len() { want as int } else { self.held().len() as int };
            step matches ReadStep::Bytes(b) && b@ == self.held().take(n) && after.held()
                == self.held().skip(n)
        } else {
            after.held().len() == 0 && if self.position() < self.limit() {
                step == (ReadStep::Window {
                    offset: page_of(self.position()) as u64,
                    len: DEFAULT_BUF_SIZE,
                })
            } else {
                step matches ReadStep::Bytes(b) && b@.len() == 0
            }
        }
    }

    /// What a read of at most `want` bytes does once `data` was read at the window's offset.
    pub open spec fn filled(
        &self,
        data: Seq<u8>,
        want: usize,
        after: PlainFileReader,
        given: Seq<u8>,
    ) -> bool {
        let page = page_of(self.position());
        let skip = self.position() - page;
        let stop = if page + data.len() < self.limit() { page + data.len() } else { self.limit() };
        let avail = stop - self.position();
        let n = if avail <= want { avail } else { want as int };
        &&& after.wf()
        &&& after.limit() == self.limit()
        &&& if avail <= 0 {
            given.len() == 0 && after.held().len() == 0 && after.position() == self.position()
        } else {
            given == data.subrange(skip, skip + n) && after.held() == data.subrange(
                skip + n,
                skip + avail,
            ) && after.position() == stop
        }
    }

    /// A reader of a file of `size` bytes. Without a range it yields the whole file.
    pub fn open(size: u64, range: Option<ByteRange>) -> (r: PlainFileReader)
        requires
            range matches Some(b) ==> b.end < u64::MAX,
        ensures
            r.fresh(size as int, range),
            forall|file: Seq<u8>|
                file.len() == size ==> (#[trigger] r.left(file)) == selected(file, range),
    {
        let start: u64 = match range {
            Some(b) => b.start,
            None => 0,
        };
        let end: u64 = match range {
            Some(b) => if b.end + 1 < size { b.end + 1 } else { size },
            None => size,
        };
        let r = PlainFileReader { pos: start, end, pending: Vec::new(), pending_off: 0 };
        proof {
            assert(r.held() =~= Seq::empty());
            assert forall|file: Seq<u8>| file.len() == size implies (#[trigger] r.left(file))
                == selected(file, range) by {
                assert(r.left(file) =~= selected(file, range));
            }
        }
        r
    }

    /// The number of bytes that the reader still yields.
    pub fn remaining(&self) -> (r: u64)
        requires
            self.wf(),
            self.held().len() + (if self.position() < self.limit() {
                self.limit() - self.position()
            } else {
                0
            }) <= u64::MAX,
        ensures
            r == self.held().len() + if self.position() < self.limit() {
                self.limit() - self.position()
            } else {
                0
            },
    {
        let ahead: u64 = if self.pos < self.end { self.end - self.pos } else { 0 };
        ahead + (self.pending.len() - self.pending_off) as u64
    }

    /// Begins a read of at most `want` bytes: either answers it, or says which window of the file
    /// is needed.
    pub fn begin(&mut self, want: usize) -> (r: ReadStep)
        requires
            old(self).wf(),
        ensures
            old(self).begun(want, *final(self), r),
            forall|file: Seq<u8>|
                old(self).left(file) == bytes_of(r) + #[trigger] final(self).left(file),
            forall|file: Seq<u8>|
                want > 0 && (r matches ReadStep::Bytes(b) && b@.len() == 0) ==> (
                #[trigger] old(self).left(file)).len() == 0,
    {
        if self.pending_off < self.pending.len() {
            let n: usize = least(self.pending.len() - self.pending_off, want);
            let from: usize = self.pending_off;
            let bytes = slice_to_vec(slice_subrange(self.pending.as_slice(), from, from + n));
            self.pending_off = from + n;
            proof {
                assert(bytes@ =~= old(self).held().take(n as int));
                assert(self.held() =~= old(self).held().skip(n as int));
                assert forall|file: Seq<u8>| true implies old(self).left(file) == bytes@
                    + #[trigger] self.left(file) by {
                    assert(old(self).left(file) =~= bytes@ + self.left(file));
                }
            }
            return ReadStep::Bytes(bytes);
        }
        let step = if self.pos >= self.end {
            ReadStep::Bytes(Vec::new())
        } else {
            let page: u64 = ALIGN as u64;
            ReadStep::Window { offset: self.pos - self.pos % page, len: DEFAULT_BUF_SIZE }
        };
        proof {
            assert(bytes_of(step) =~= Seq::empty());
            assert forall|file: Seq<u8>| true implies old(self).left(file) == bytes_of(step)
                + #[trigger] self.left(file) by {
                assert(old(self).left(file) =~= bytes_of(step) + self.left(file));
            }
        }
        step
    }

    /// Goes on with a read of at most `want` bytes after `data` was read at the window's offset.
    /// What does not fit is held for the next read.
    pub fn window(&mut self, data: &[u8], want: usize) -> (r: Vec<u8>)
        requires
            old(self).wf(),
            old(self).held().len() == 0,
            old(self).position() < old(self).limit(),
        ensures
            old(self).filled(data@, want, *final(self), r@),
            forall|file: Seq<u8>|
                old(self).limit() <= file.len() && is_window(
                    file,
                    page_of(old(self).position()),
                    data@,
                ) ==> r@ + #[trigger] final(self).left(file) == old(self).left(file),
    {
        let page: u64 = ALIGN as u64;
        let start: u64 = self.pos - self.pos % page;
        let skip: usize = (self.pos - start) as usize;
        let room: u64 = self.end - start;
        let stop: u64 = if (data.len() as u64) < room { start + data.len() as u64 } else { self.end };
        if stop <= self.pos {
            proof {
                assert(self.held() =~= Seq::empty());
                assert forall|file: Seq<u8>| true implies Seq::<u8>::empty()
                    + #[trigger] self.left(file) == old(self).left(file) by {
                    assert(Seq::<u8>::empty() + self.left(file) =~= self.left(file));
                }
            }
            return Vec::new();
        }
        let avail: usize = (stop - self.pos) as usize;
        let take: usize = least(avail, want);
        let out = slice_to_vec(slice_subrange(data, skip, skip + take));
        self.pending = slice_to_vec(slice_subrange(data, skip + take, skip + avail));
        self.pending_off = 0;
        self.pos = stop;
        proof {
            assert(self.held() =~= data@.subrange(skip + take, skip + avail));
            assert forall|file: Seq<u8>|
                old(self).limit() <= file.len() && is_window(
                    file,
                    page_of(old(self).position()),
                    data@,
                ) implies out@ + #[trigger] self.left(file) == old(self).left(file) by {
                assert(out@ + self.left(file) =~= old(self).left(file));
            }
        }
        out
    }
}

/// The bytes of the parts from number `i` on, one after the other.
pub open spec fn body_from(contents: Seq<Seq<u8>>, i: int) -> Seq<u8>
    decreases contents.len() - i,
{
    if i < 0 || i >= contents.len() {
        Seq::empty()
    } else {
        contents[i] + body_from(contents, i + 1)
    }
}

/// The sum of the sizes of the parts from number `i` on.
pub open spec fn sizes_from(parts: Seq<PartRefView>, i: int) -> int
    decreases parts.len() - i,
{
    if i < 0 || i >= parts.len() {
        0
    } else {
        parts[i].size + sizes_from(parts, i + 1)
    }
}

/// Every part file holds as many bytes as its part records.
pub open spec fn sizes_match(parts: Seq<PartRefView>, contents: Seq<Seq<u8>>) -> bool {
    contents.len() == parts.len() && forall|i: int|
        0 <= i < parts.len() ==> (#[trigger] contents[i]).len() == parts[i].size
}

pub proof fn lemma_sizes_from(parts: Seq<PartRefView>, contents: Seq<Seq<u8>>, i: int)
    requires
        sizes_match(parts, contents),
        0 <= i,
    ensures
        body_from(contents, i).len() == sizes_from(parts, i),
        0 <= sizes_from(parts, i),
    decreases contents.len() - i,
{
    if i < contents.len() {
        lemma_sizes_from(parts, contents, i + 1);
    }
}

proof fn lemma_sizes_nonnegative(parts: Seq<PartRefView>, i: int)
    requires
        0 <= i,
    ensures
        0 <= sizes_from(parts, i),
    decreases parts.len() - i,
{
    if i < parts.len() {
        lemma_sizes_nonnegative(parts, i + 1);
    }
}

pub proof fn lemma_sizes_suffix(parts: Seq<PartRefView>, i: int)
    requires
        0 <= i <= parts.len(),
    ensures
        0 <= sizes_from(parts, i) <= sizes_from(parts, 0),
    decreases i,
{
    lemma_sizes_nonnegative(parts, i);
    if i > 0 {
        lemma_sizes_suffix(parts, i - 1);
    }
}

/// The bytes of `body` that a range selects; without a range, all of them.
pub open spec fn selected(body: Seq<u8>, range: Option<ByteRange>) -> Seq<u8> {
    match range {
        Some(b) => {
            let start = if b.start < body.len() { b.start as int } else { body.len() as int };
            let end = if b.end < body.len() { b.end + 1 } else { body.len() as int };
            if start < end {
                body.subrange(start, end)
            } else {
                Seq::empty()
            }
        },
        None => body,
    }
}

/// Streams the parts of an object one after the other, with one file open at a time. The parts
/// are never joined on disk.
#[derive(Debug)]
pub struct MultipartReader {
    parts: Vec<PartRef>,
    /// The part that is read.
    cur_part: usize,
    /// Whether the file of that part is open.
    is_open: bool,
    /// The offset in the open file that is read next.
    cur_off: u64,
    /// The bytes of the body that are still to be read.
    remaining: u64,
    /// Where the next file that is opened is entered.
    skip_in_part: u64,
    /// Bytes that were read but not handed out yet.
    pending: Vec<u8>,
    pending_off: usize,
}

impl MultipartReader {
    pub closed spec fn wf(&self) -> bool {
        &&& self.pending_off <= self.pending@.len()
        &&& self.cur_part <= self.parts.len()
        &&& self.is_open ==> self.cur_part < self.parts.len() && self.skip_in_part == 0
    }

    /// The bytes that are read but not handed out.
    pub closed spec fn held(&self) -> Seq<u8> {
        self.pending@.skip(self.pending_off as int)
    }

    pub closed spec fn parts_view(&self) -> Seq<PartRefView> {
        part_refs(self.parts@)
    }

    /// The number of the part that is read.
    pub closed spec fn part(&self) -> int {
        self.cur_part as int
    }

    /// Whether the file of that part is open.
    pub closed spec fn open_now(&self) -> bool {
        self.is_open
    }

    /// The offset in that part.
    pub closed spec fn offset(&self) -> int {
        if self.is_open {
            self.cur_off as int
        } else {
            self.skip_in_part as int
        }
    }

    /// The bytes of the body that are still to be read.
    pub closed spec fn unread(&self) -> int {
        self.remaining as int
    }

    /// What follows the present position in parts with the given contents.
    pub open spec fn tail(&self, contents: Seq<Seq<u8>>) -> Seq<u8> {
        if 0 <= self.part() < contents.len() {
            contents[self.part()].skip(self.offset()) + body_from(contents, self.part() + 1)
        } else {
            Seq::empty()
        }
    }

    /// The contents are those of the parts, and the position lies within them.
    pub open spec fn reads(&self, contents: Seq<Seq<u8>>) -> bool {
        &&& sizes_match(self.parts_view(), contents)
        &&& self.part() < contents.len() ==> self.offset() <= contents[self.part()].len()
        &&& self.unread() <= self.tail(contents).len()
    }

    /// What the reader still yields of parts with the given contents.
    pub open spec fn left(&self, contents: Seq<Seq<u8>>) -> Seq<u8> {
        self.held() + self.tail(contents).take(self.unread())
    }

    /// The reader is at the beginning of the parts, or of a range of their bytes.
    pub open spec fn fresh(&self, parts: Seq<PartRefView>, range: Option<ByteRange>) -> bool {
        let total = sizes_from(parts, 0);
        let start = match range {
            Some(b) => if b.start < total { b.start as int } else { total },
            None => 0,
        };
        &&& self.wf()
        &&& self.parts_view() == parts
        &&& !self.open_now()
        &&& self.held().len() == 0
        &&& 0 <= self.part() <= parts.len()
        &&& self.part() < parts.len() ==> self.offset() < parts[self.part()].size
        &&& self.part() == parts.len() ==> self.offset() == 0
        &&& self.unread() > 0 ==> total - sizes_from(parts, self.part()) + self.offset() == start
        &&& self.unread() == (match range {
            Some(b) => if b.count() <= total - start { b.count() } else { total - start },
            None => total,
        })
    }

    /// What the beginning of a read of at most `want` bytes does.
    pub open spec fn begun(&self, want: usize, after: MultipartReader, step: ReadStep) -> bool {
        &&& after.wf()
        &&& after.parts_view() == self.parts_view()
        &&& after.unread() == self.unread()
        &&& if self.held().len() > 0 {
            let n = if want <= self.held().len() { want as int } else { self.held().len() as int };
            step matches ReadStep::Bytes(b) && b@ == self.held().take(n) && after.held()
                == self.held().skip(n) && after.same_place(*self)
        } else {
            after.held().len() == 0 && self.next_step(after, step)
        }
    }

    /// What the opening of the present part's file does.
    pub open spec fn entered(&self, after: MultipartReader) -> bool {
        &&& after.wf()
        &&& after.open_now()
        &&& after.parts_view() == self.parts_view()
        &&& after.part() == self.part()
        &&& after.offset() == self.offset()
        &&& after.unread() == self.unread()
        &&& after.held() == self.held()
    }

    /// What a read of at most `want` bytes does once `data` was read at the window's offset.
    pub open spec fn filled(
        &self,
        data: Seq<u8>,
        want: usize,
        after: MultipartReader,
        given: Option<Seq<u8>>,
    ) -> bool {
        let size = self.parts_view()[self.part()].size;
        let page = page_of(self.offset());
        let skip = self.offset() - page;
        let stop = if page + data.len() < size { page + data.len() } else { size as int };
        let in_part = stop - self.offset();
        let avail = if in_part <= self.unread() { in_part } else { self.unread() };
        let n = if avail <= want { avail } else { want as int };
        &&& after.wf()
        &&& after.parts_view() == self.parts_view()
        &&& if in_part <= 0 {
            given is None && after.held().len() == 0 && after.unread() == self.unread()
                && after.part() == self.part() + 1 && after.offset() == 0 && !after.open_now()
        } else {
            &&& given matches Some(b) && b == data.subrange(skip, skip + n)
            &&& after.held() == data.subrange(skip + n, skip + avail)
            &&& after.unread() == self.unread() - avail
            &&& if self.offset() + avail < size {
                after.part() == self.part() && after.offset() == self.offset() + avail
                    && after.open_now()
            } else {
                after.part() == self.part() + 1 && after.offset() == 0 && !after.open_now()
            }
        }
    }

    /// A reader of the parts. Without a range it yields the whole body.
    pub fn new(parts: Vec<PartRef>, range: Option<ByteRange>) -> (r: MultipartReader)
        requires
            sizes_from(part_refs(parts@), 0) <= u64::MAX,
            range matches Some(b) ==> b.wf(),
        ensures
            r.fresh(part_refs(parts@), range),
            forall|contents: Seq<Seq<u8>>|
                sizes_match(part_refs(parts@), contents) ==> #[trigger] r.reads(contents),
            forall|contents: Seq<Seq<u8>>|
                sizes_match(part_refs(parts@), contents) ==> (#[trigger] r.left(contents))
                    == selected(body_from(contents, 0), range),
    {
        let ghost views = part_refs(parts@);
        let mut total: u64 = 0;
        let mut i: usize = 0;
        while i < parts.len()
            invariant
                i <= parts@.len(),
                views == part_refs(parts@),
                sizes_from(views, 0) <= u64::MAX,
                total + sizes_from(views, i as int) == sizes_from(views, 0),
            decreases parts@.len() - i,
        {
            proof {
                lemma_sizes_nonnegative(views, i + 1);
            }
            total = total + parts[i].size;
            i = i + 1;
        }
        let start: u64 = match range {
            Some(b) => b.start,
            None => 0,
        };
        let len: u64 = match range {
            Some(b) => {
                let behind: u64 = if b.start < total { total - b.start } else { 0 };
                let count: u64 = b.len();
                if count <= behind { count } else { behind }
            },
            None => total,
        };
        let mut acc: u64 = 0;
        let mut cur_part: usize = 0;
        let mut found = false;
        while cur_part < parts.len() && !found
            invariant
                cur_part <= parts@.len(),
                views == part_refs(parts@),
                total == sizes_from(views, 0) <= u64::MAX,
                acc <= start,
                acc + sizes_from(views, cur_part as int) == total,
                found ==> cur_part < parts@.len() && start < acc + parts@[cur_part as int].size,
            ensures
                !found ==> cur_part == parts@.len(),
            decreases parts@.len() - cur_part + if found { 0int } else { 1int },
        {
            proof {
                lemma_sizes_nonnegative(views, cur_part + 1);
            }
            if start < acc + parts[cur_part].size {
                found = true;
            } else {
                acc = acc + parts[cur_part].size;
                cur_part = cur_part + 1;
            }
        }
        let skip: u64 = if found { start - acc } else { 0 };
        let r = MultipartReader {
            parts,
            cur_part,
            is_open: false,
            cur_off: 0,
            remaining: len,
            skip_in_part: skip,
            pending: Vec::new(),
            pending_off: 0,
        };
        proof {
            assert(r.held() =~= Seq::empty());
            assert forall|contents: Seq<Seq<u8>>|
                #![trigger r.reads(contents)]
                #![trigger r.left(contents)]
                sizes_match(views, contents) implies r.reads(contents) && r.left(contents) == selected(body_from(contents, 0), range) by {
                let body = body_from(contents, 0);
                lemma_sizes_from(views, contents, 0);
                lemma_sizes_from(views, contents, cur_part as int);
                lemma_sizes_from(views, contents, cur_part + 1);
                lemma_body_from(contents, cur_part as int);
                assert(body.skip(acc as int) =~= body_from(contents, cur_part as int));
                let at = if start < total { start as int } else { total as int };
                if found {
                    assert(r.tail(contents) =~= body_from(contents, cur_part as int).skip(
                        skip as int,
                    ));
                    assert(r.tail(contents) =~= body.skip(at));
                } else {
                    assert(r.tail(contents) =~= body.skip(at));
                }
                assert(r.left(contents) =~= body.subrange(at, at + len));
                if range is None {
                    assert(body.subrange(0, body.len() as int) =~= body);
                }
            }
        }
        r
    }

    /// The number of bytes that the reader still yields.
    pub fn remaining(&self) -> (r: u64)
        requires
            self.wf(),
            self.unread() + self.held().len() <= u64::MAX,
        ensures
            r == self.unread() + self.held().len(),
    {
        self.remaining + (self.pending.len() - self.pending_off) as u64
    }

    /// Begins a read of at most `want` bytes: either answers it, or says which file has to be
    /// opened or which window of the open file is needed.
    pub fn begin(&mut self, want: usize) -> (r: ReadStep)
        requires
            old(self).wf(),
        ensures
            old(self).begun(want, *final(self), r),
            forall|contents: Seq<Seq<u8>>| #[trigger]
                old(self).reads(contents) ==> final(self).reads(contents),
            forall|contents: Seq<Seq<u8>>|
                old(self).reads(contents) ==> old(self).left(contents) == bytes_of(r)
                    + #[trigger] final(self).left(contents),
            forall|contents: Seq<Seq<u8>>|
                old(self).reads(contents) && want > 0 && (r matches ReadStep::Bytes(b) && b@.len()
                    == 0) ==> (#[trigger] old(self).left(contents)).len() == 0,
    {
        if self.pending_off < self.pending.len() {
            let n: usize = least(self.pending.len() - self.pending_off, want);
            let from: usize = self.pending_off;
            let bytes = slice_to_vec(slice_subrange(self.pending.as_slice(), from, from + n));
            self.pending_off = from + n;
            proof {
                assert(bytes@ =~= old(self).held().take(n as int));
                assert(self.held() =~= old(self).held().skip(n as int));
                assert forall|contents: Seq<Seq<u8>>| old(self).reads(contents) implies old(self).left(contents) == bytes@ + #[trigger] self.left(contents) by {
                    assert(old(self).left(contents) =~= bytes@ + self.left(contents));
                }
            }
            return ReadStep::Bytes(bytes);
        }
        assert(self.held() =~= Seq::empty());
        if self.remaining > 0 && self.is_open && self.cur_off >= self.parts[self.cur_part].size {
            self.is_open = false;
            self.cur_part = self.cur_part + 1;
        }
        let step = if self.remaining == 0 || self.cur_part >= self.parts.len() {
            ReadStep::Bytes(Vec::new())
        } else if !self.is_open {
            ReadStep::Open { part: self.cur_part }
        } else {
            let page: u64 = ALIGN as u64;
            ReadStep::Window { offset: self.cur_off - self.cur_off % page, len: DEFAULT_BUF_SIZE }
        };
        proof {
            assert(self.held() =~= Seq::empty());
            assert(bytes_of(step) =~= Seq::empty());
            assert forall|contents: Seq<Seq<u8>>|
                #![trigger old(self).reads(contents)]
                #![trigger self.left(contents)]
                old(self).reads(contents) implies self.reads(contents) && old(self).left(contents)
                == bytes_of(step) + self.left(contents) by {
                let views = self.parts_view();
                let i = old(self).part();
                if old(self).cur_part != self.cur_part {
                    lemma_sizes_from(views, contents, i + 1);
                    assert(views[i].size == old(self).parts@[i].size);
                    assert(contents[i].skip(old(self).offset()) =~= Seq::empty());
                    if i + 1 < contents.len() {
                        assert(contents[i + 1].skip(0) =~= contents[i + 1]);
                    }
                    assert(old(self).tail(contents) =~= self.tail(contents));
                }
                assert(old(self).left(contents) =~= bytes_of(step) + self.left(contents));
            }
            assert forall|contents: Seq<Seq<u8>>|
                old(self).reads(contents) && want > 0 && (step matches ReadStep::Bytes(b)
                    && b@.len() == 0) implies (#[trigger] old(self).left(contents)).len() == 0 by {
                assert(self.reads(contents));
                assert(old(self).left(contents) == bytes_of(step) + self.left(contents));
            }
        }
        step
    }

    /// The part, the offset in it and whether its file is open are those of `other`.
    pub open spec fn same_place(&self, other: MultipartReader) -> bool {
        self.part() == other.part() && self.offset() == other.offset() && self.open_now()
            == other.open_now()
    }

    /// What a read needs when nothing is held: the next part once the present one is used up, its
    /// file if that is not open, and then the page at the present offset.
    pub open spec fn next_step(&self, after: MultipartReader, step: ReadStep) -> bool {
        let parts = self.parts_view();
        if self.unread() == 0 || self.part() >= parts.len() {
            after.same_place(*self) && (step matches ReadStep::Bytes(b) && b@.len() == 0)
        } else if !self.open_now() {
            after.same_place(*self) && step == (ReadStep::Open { part: self.part() as usize })
        } else if self.offset() < parts[self.part()].size {
            after.same_place(*self) && step == (ReadStep::Window {
                offset: page_of(self.offset()) as u64,
                len: DEFAULT_BUF_SIZE,
            })
        } else {
            after.part() == self.part() + 1 && after.offset() == 0 && !after.open_now() && if self.part()
                + 1 < parts.len() {
                step == (ReadStep::Open { part: (self.part() + 1) as usize })
            } else {
                step matches ReadStep::Bytes(b) && b@.len() == 0
            }
        }
    }

    /// Notes that the file of the present part was opened.
    pub fn opened(&mut self)
        requires
            old(self).wf(),
            !old(self).open_now(),
            old(self).part() < old(self).parts_view().len(),
        ensures
            old(self).entered(*final(self)),
            forall|contents: Seq<Seq<u8>>| #[trigger]
                final(self).reads(contents) == old(self).reads(contents),
            forall|contents: Seq<Seq<u8>>| #[trigger]
                final(self).left(contents) == old(self).left(contents),
    {
        self.is_open = true;
        self.cur_off = self.skip_in_part;
        self.skip_in_part = 0;
    }

    /// Goes on with a read of at most `want` bytes after `data` was read at the window's offset.
    /// `None` means that the part ended early: the read goes on with the next part.
    pub fn window(&mut self, data: &[u8], want: usize) -> (r: Option<Vec<u8>>)
        requires
            old(self).wf(),
            old(self).held().len() == 0,
            old(self).unread() > 0,
            old(self).open_now(),
            old(self).offset() < old(self).parts_view()[old(self).part()].size,
        ensures
            old(self).filled(
                data@,
                want,
                *final(self),
                match r {
                    Some(b) => Some(b@),
                    None => None,
                },
            ),
            forall|contents: Seq<Seq<u8>>| #[trigger]
                old(self).reads(contents) && old(self).window_of(contents, data@) ==> final(self).reads(contents),
            forall|contents: Seq<Seq<u8>>|
                old(self).reads(contents) && old(self).window_of(contents, data@) ==> (
                r matches Some(b) && old(self).left(contents) == b@ + #[trigger] final(self).left(
                    contents,
                )),
    {
        let size: u64 = self.parts[self.cur_part].size;
        let page: u64 = ALIGN as u64;
        let start: u64 = self.cur_off - self.cur_off % page;
        let skip: usize = (self.cur_off - start) as usize;
        let room: u64 = size - start;
        let stop: u64 = if (data.len() as u64) < room { start + data.len() as u64 } else { size };
        if stop <= self.cur_off {
            self.is_open = false;
            self.cur_part = self.cur_part + 1;
            assert(self.held() =~= Seq::empty());
            return None;
        }
        let in_part: u64 = stop - self.cur_off;
        let avail: usize = if in_part <= self.remaining { in_part as usize } else {
            self.remaining as usize
        };
        let take: usize = least(avail, want);
        let out = slice_to_vec(slice_subrange(data, skip, skip + take));
        self.pending = slice_to_vec(slice_subrange(data, skip + take, skip + avail));
        self.pending_off = 0;
        self.cur_off = self.cur_off + avail as u64;
        self.remaining = self.remaining - avail as u64;
        if self.cur_off >= size {
            self.is_open = false;
            self.cur_part = self.cur_part + 1;
        }
        proof {
            assert(self.held() =~= data@.subrange(skip + take, skip + avail));
            assert(out@ + self.held() =~= data@.subrange(skip as int, skip + avail));
            assert forall|contents: Seq<Seq<u8>>|
                #![trigger old(self).reads(contents)]
                #![trigger self.left(contents)]
                old(self).reads(contents) && old(self).window_of(contents, data@) implies self.reads(
                contents,
            ) && old(self).left(contents) == out@ + self.left(contents) by {
                lemma_window(*old(self), *self, contents, data@, out@, avail as int);
            }
        }
        Some(out)
    }

    /// `data` is what a read of the present part's file at the window's offset gives back, and it
    /// reaches past the present offset.
    pub open spec fn window_of(&self, contents: Seq<Seq<u8>>, data: Seq<u8>) -> bool {
        is_window(contents[self.part()], page_of(self.offset()), data) && page_of(self.offset())
            + data.len() > self.offset()
    }
}

/// Taking `avail` bytes from the window moves them from the tail to what is handed out or held.
proof fn lemma_window(
    old_reader: MultipartReader,
    new_reader: MultipartReader,
    contents: Seq<Seq<u8>>,
    data: Seq<u8>,
    out: Seq<u8>,
    avail: int,
)
    requires
        old_reader.reads(contents),
        old_reader.window_of(contents, data),
        old_reader.open_now(),
        old_reader.held().len() == 0,
        0 <= old_reader.part() < contents.len(),
        old_reader.offset() < contents[old_reader.part()].len(),
        0 < avail <= old_reader.unread(),
        page_of(old_reader.offset()) + data.len() >= old_reader.offset() + avail,
        old_reader.offset() + avail <= contents[old_reader.part()].len(),
        new_reader.parts_view() == old_reader.parts_view(),
        new_reader.unread() == old_reader.unread() - avail,
        out + new_reader.held() == data.subrange(
            old_reader.offset() - page_of(old_reader.offset()),
            old_reader.offset() - page_of(old_reader.offset()) + avail,
        ),
        if old_reader.offset() + avail < contents[old_reader.part()].len() {
            new_reader.part() == old_reader.part() && new_reader.offset() == old_reader.offset()
                + avail
        } else {
            new_reader.part() == old_reader.part() + 1 && new_reader.offset() == 0
        },
    ensures
        new_reader.reads(contents),
        old_reader.left(contents) == out + new_reader.left(contents),
{
    let i = old_reader.part();
    let views = old_reader.parts_view();
    lemma_sizes_from(views, contents, i + 1);
    let before = old_reader.tail(contents);
    let skip = old_reader.offset() - page_of(old_reader.offset());
    let given = data.subrange(skip, skip + avail);
    let file = contents[i];
    assert forall|j: int| 0 <= j < avail implies before[j] == given[j] by {
        assert(before[j] == file[old_reader.offset() + j]);
        assert(data[skip + j] == file.subrange(
            page_of(old_reader.offset()),
            page_of(old_reader.offset()) + data.len(),
        )[skip + j]);
    }
    assert(before.take(avail) =~= given);
    if old_reader.offset() + avail >= file.len() {
        assert(file.skip(old_reader.offset()).skip(avail) =~= Seq::empty());
        if i + 1 < contents.len() {
            assert(contents[i + 1].skip(0) =~= contents[i + 1]);
        }
    }
    assert(new_reader.tail(contents) =~= before.skip(avail));
    assert(before.take(old_reader.unread()) =~= given + before.skip(avail).take(
        new_reader.unread(),
    ));
    assert(old_reader.left(contents) =~= out + new_reader.left(contents));
}

/// Where the bytes of part `i` begin in the body.
proof fn lemma_body_from(contents: Seq<Seq<u8>>, i: int)
    requires
        0 <= i <= contents.len(),
    ensures
        body_from(contents, 0).len() >= body_from(contents, i).len(),
        body_from(contents, 0).skip(
            body_from(contents, 0).len() - body_from(contents, i).len(),
        ) == body_from(contents, i),
    decreases i,
{
    let body = body_from(contents, 0);
    if i == 0 {
        assert(body.skip(0) =~= body);
    } else {
        lemma_body_from(contents, i - 1);
        let prev = body_from(contents, i - 1);
        let here = body_from(contents, i);
        assert(prev == contents[i - 1] + here);
        assert(body.skip(body.len() - here.len()) =~= here) by {
            assert(body.skip(body.len() - prev.len()) == prev);
            assert forall|j: int| 0 <= j < here.len() implies body.skip(body.len() - here.len())[j]
                == here[j] by {
                assert(prev[contents[i - 1].len() + j] == here[j]);
                assert(body.skip(body.len() - prev.len())[contents[i - 1].len() + j] == here[j]);
            }
        }
    }
}

/// What happens to a reader of one file.
pub enum PlainTurn {
    /// A read of at most `want` bytes began.
    Begun { want: usize, step: ReadStep },
    /// The window that it asked for was read.
    Filled { data: Seq<u8>, want: usize, given: Seq<u8> },
}

/// The reader goes from one state to the next, where the file has the contents `file`.
pub open spec fn plain_turn(
    before: PlainFileReader,
    after: PlainFileReader,
    file: Seq<u8>,
    turn: PlainTurn,
) -> bool {
    match turn {
        PlainTurn::Begun { want, step } => before.begun(want, after, step),
        PlainTurn::Filled { data, want, given } => before.held().len() == 0 && before.position()
            < before.limit() && is_window(file, page_of(before.position()), data) && before.filled(
            data,
            want,
            after,
            given,
        ),
    }
}

/// The bytes that a turn hands out.
pub open spec fn plain_given(turn: PlainTurn) -> Seq<u8> {
    match turn {
        PlainTurn::Begun { step, .. } => bytes_of(step),
        PlainTurn::Filled { given, .. } => given,
    }
}

/// The bytes that the turns hand out, one after the other.
pub open spec fn all_plain_given(turns: Seq<PlainTurn>) -> Seq<u8>
    decreases turns.len(),
{
    if turns.len() == 0 {
        Seq::empty()
    } else {
        all_plain_given(turns.drop_last()) + plain_given(turns.last())
    }
}

/// The read came to the end: it asked for bytes and was handed none.
pub open spec fn is_plain_end(turn: PlainTurn) -> bool {
    turn matches PlainTurn::Begun { want, step } && want > 0 && (step matches ReadStep::Bytes(b)
        && b@.len() == 0)
}

/// What a turn hands out and what is left after it are what was left before it.
proof fn lemma_plain_turn(
    before: PlainFileReader,
    after: PlainFileReader,
    file: Seq<u8>,
    turn: PlainTurn,
)
    requires
        before.limit() <= file.len(),
        plain_turn(before, after, file, turn),
    ensures
        before.left(file) == plain_given(turn) + after.left(file),
        after.limit() == before.limit(),
        is_plain_end(turn) ==> before.left(file).len() == 0,
{
    assert(before.left(file) =~= plain_given(turn) + after.left(file));
}

/// What the reads of one file hand out, one after the other, is the file or the range of it that
/// was asked for: at any point up to what is still left, and once a read comes to the end, all
/// of it.
pub proof fn reads_give_the_file(
    file: Seq<u8>,
    range: Option<ByteRange>,
    readers: Seq<PlainFileReader>,
    turns: Seq<PlainTurn>,
)
    requires
        readers.len() == turns.len() + 1,
        readers[0].fresh(file.len() as int, range),
        forall|i: int|
            0 <= i < turns.len() ==> plain_turn(
                readers[i],
                readers[i + 1],
                file,
                #[trigger] turns[i],
            ),
    ensures
        all_plain_given(turns) + readers.last().left(file) == selected(file, range),
        turns.len() > 0 && is_plain_end(turns.last()) ==> all_plain_given(turns) == selected(
            file,
            range,
        ),
        readers.last().limit() <= file.len(),
    decreases turns.len(),
{
    if turns.len() == 0 {
        assert(all_plain_given(turns) + readers[0].left(file) =~= selected(file, range));
    } else {
        let n = turns.len() - 1;
        let front = turns.drop_last();
        let early = readers.drop_last();
        assert forall|i: int| 0 <= i < front.len() implies plain_turn(
            early[i],
            early[i + 1],
            file,
            #[trigger] front[i],
        ) by {
            assert(front[i] == turns[i]);
        }
        reads_give_the_file(file, range, early, front);
        assert(turns[n] == turns.last());
        lemma_plain_turn(readers[n], readers[n + 1], file, turns[n]);
        assert(all_plain_given(turns) + readers[n + 1].left(file) =~= all_plain_given(front)
            + readers[n].left(file));
        if is_plain_end(turns.last()) {
            assert(all_plain_given(turns) =~= all_plain_given(front) + readers[n].left(file));
        }
    }
}

/// What happens to a reader of parts.
pub enum PartsTurn {
    /// A read of at most `want` bytes began.
    Begun { want: usize, step: ReadStep },
    /// The file that it asked for was opened.
    Entered,
    /// The window that it asked for was read.
    Filled { data: Seq<u8>, want: usize, given: Option<Seq<u8>> },
}

/// The reader goes from one state to the next, where the part files have the given contents.
pub open spec fn parts_turn(
    before: MultipartReader,
    after: MultipartReader,
    contents: Seq<Seq<u8>>,
    turn: PartsTurn,
) -> bool {
    match turn {
        PartsTurn::Begun { want, step } => before.begun(want, after, step),
        PartsTurn::Entered => !before.open_now() && before.part() < before.parts_view().len()
            && before.entered(after),
        PartsTurn::Filled { data, want, given } => {
            &&& before.held().len() == 0
            &&& before.unread() > 0
            &&& before.open_now()
            &&& before.offset() < before.parts_view()[before.part()].size
            &&& before.window_of(contents, data)
            &&& before.filled(data, want, after, given)
        },
    }
}

/// The bytes that a turn hands out.
pub open spec fn parts_given(turn: PartsTurn) -> Seq<u8> {
    match turn {
        PartsTurn::Begun { step, .. } => bytes_of(step),
        PartsTurn::Entered => Seq::empty(),
        PartsTurn::Filled { given, .. } => match given {
            Some(b) => b,
            None => Seq::empty(),
        },
    }
}

/// The bytes that the turns hand out, one after the other.
pub open spec fn all_parts_given(turns: Seq<PartsTurn>) -> Seq<u8>
    decreases turns.len(),
{
    if turns.len() == 0 {
        Seq::empty()
    } else {
        all_parts_given(turns.drop_last()) + parts_given(turns.last())
    }
}

/// The read came to the end: it asked for bytes and was handed none.
pub open spec fn is_parts_end(turn: PartsTurn) -> bool {
    turn matches PartsTurn::Begun { want, step } && want > 0 && (step matches ReadStep::Bytes(b)
        && b@.len() == 0)
}

/// A reader at the beginning yields what the range selects.
proof fn lemma_fresh_parts(
    r: MultipartReader,
    parts: Seq<PartRefView>,
    contents: Seq<Seq<u8>>,
    range: Option<ByteRange>,
)
    requires
        sizes_match(parts, contents),
        range matches Some(b) ==> b.wf(),
        r.fresh(parts, range),
    ensures
        r.reads(contents),
        r.left(contents) == selected(body_from(contents, 0), range),
{
    let body = body_from(contents, 0);
    let i = r.part();
    lemma_sizes_from(parts, contents, 0);
    lemma_sizes_from(parts, contents, i);
    lemma_sizes_from(parts, contents, i + 1);
    lemma_body_from(contents, i);
    let here = body_from(contents, i);
    assert(body.skip(body.len() - here.len()) == here);
    if i < contents.len() {
        assert(r.tail(contents) =~= here.skip(r.offset()));
    } else {
        assert(r.tail(contents) =~= here.skip(r.offset()));
    }
    if r.unread() > 0 {
        let at = body.len() - here.len() + r.offset();
        assert(r.tail(contents) =~= body.skip(at));
        assert(r.left(contents) =~= body.subrange(at, at + r.unread()));
        if range is None {
            assert(body.subrange(0, body.len() as int) =~= body);
        }
    } else {
        assert(r.left(contents) =~= Seq::empty());
        assert(selected(body, range) =~= Seq::empty());
    }
}

/// What a turn hands out and what is left after it are what was left before it.
proof fn lemma_parts_turn(
    before: MultipartReader,
    after: MultipartReader,
    contents: Seq<Seq<u8>>,
    turn: PartsTurn,
)
    requires
        before.wf(),
        before.reads(contents),
        parts_turn(before, after, contents, turn),
    ensures
        after.wf(),
        after.reads(contents),
        before.left(contents) == parts_given(turn) + after.left(contents),
        is_parts_end(turn) ==> before.left(contents).len() == 0,
{
    let views = before.parts_view();
    let i = before.part();
    match turn {
        PartsTurn::Begun { want, step } => {
            if before.held().len() == 0 && after.part() != i {
                lemma_sizes_from(views, contents, i + 1);
                assert(contents[i].skip(before.offset()) =~= Seq::empty());
                if i + 1 < contents.len() {
                    assert(contents[i + 1].skip(0) =~= contents[i + 1]);
                }
                assert(before.tail(contents) =~= after.tail(contents));
            }
            assert(before.left(contents) =~= parts_given(turn) + after.left(contents));
        },
        PartsTurn::Entered => {
            assert(before.left(contents) =~= parts_given(turn) + after.left(contents));
        },
        PartsTurn::Filled { data, want, given } => {
            let size = views[i].size;
            let page = page_of(before.offset());
            let stop = if page + data.len() < size { page + data.len() } else { size as int };
            let in_part = stop - before.offset();
            let avail = if in_part <= before.unread() { in_part } else { before.unread() };
            let skip = before.offset() - page;
            assert(given->0 + after.held() =~= data.subrange(skip, skip + avail));
            lemma_window(before, after, contents, data, given->0, avail);
        },
    }
}

/// What the reads of parts hand out, one after the other, is the bytes of the parts joined, or the
/// range of them that was asked for: at any point up to what is still left, and once a read comes
/// to the end, all of it.
pub proof fn reads_give_the_parts(
    parts: Seq<PartRefView>,
    contents: Seq<Seq<u8>>,
    range: Option<ByteRange>,
    readers: Seq<MultipartReader>,
    turns: Seq<PartsTurn>,
)
    requires
        sizes_match(parts, contents),
        range matches Some(b) ==> b.wf(),
        readers.len() == turns.len() + 1,
        readers[0].fresh(parts, range),
        forall|i: int|
            0 <= i < turns.len() ==> parts_turn(
                readers[i],
                readers[i + 1],
                contents,
                #[trigger] turns[i],
            ),
    ensures
        readers.last().wf(),
        readers.last().reads(contents),
        all_parts_given(turns) + readers.last().left(contents) == selected(
            body_from(contents, 0),
            range,
        ),
        turns.len() > 0 && is_parts_end(turns.last()) ==> all_parts_given(turns) == selected(
            body_from(contents, 0),
            range,
        ),
    decreases turns.len(),
{
    let want = selected(body_from(contents, 0), range);
    if turns.len() == 0 {
        lemma_fresh_parts(readers[0], parts, contents, range);
        assert(all_parts_given(turns) + readers[0].left(contents) =~= want);
    } else {
        let n = turns.len() - 1;
        let front = turns.drop_last();
        let early = readers.drop_last();
        assert forall|i: int| 0 <= i < front.len() implies parts_turn(
            early[i],
            early[i + 1],
            contents,
            #[trigger] front[i],
        ) by {
            assert(front[i] == turns[i]);
        }
        reads_give_the_parts(parts, contents, range, early, front);
        assert(turns[n] == turns.last());
        lemma_parts_turn(readers[n], readers[n + 1], contents, turns[n]);
        assert(all_parts_given(turns) + readers[n + 1].left(contents) =~= all_parts_given(front)
            + readers[n].left(contents));
        if is_parts_end(turns.last()) {
            assert(all_parts_given(turns) =~= all_parts_given(front) + readers[n].left(contents));
        }
    }
}

} // verus!
