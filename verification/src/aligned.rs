//! A reusable buffer for direct I/O, which asks for page-aligned memory, offsets and lengths.

use vstd::prelude::*;
use vstd::slice::slice_subrange;
use crate::outside::start_address;

verus! {

/// The alignment of direct I/O: the page size.
pub const ALIGN: usize = 4096;

/// The size of the buffer for streaming copies, a multiple of `ALIGN`.
pub const DEFAULT_BUF_SIZE: usize = 1048576;

/// The smallest multiple of `ALIGN` that is at least `size`, and at least one page.
pub open spec fn buffer_size(size: int) -> int {
    if size <= 0 {
        ALIGN as int
    } else {
        (size + ALIGN - 1) / (ALIGN as int) * ALIGN
    }
}

/// How far behind `address` the next multiple of `ALIGN` begins.
pub fn skew_for(address: usize) -> (r: usize)
    ensures
        r < ALIGN,
        (address % ALIGN + r) % ALIGN as int == 0,
{
    (ALIGN - address % ALIGN) % ALIGN
}

/// A heap buffer whose bytes begin at a multiple of `ALIGN`.
pub struct AlignedBuf {
    data: Vec<u8>,
    address: usize,
    skew: usize,
    cap: usize,
}

impl View for AlignedBuf {
    type V = Seq<u8>;

    closed spec fn view(&self) -> Seq<u8> {
        self.data@.subrange(self.skew as int, self.skew + self.cap)
    }
}

impl AlignedBuf {
    pub closed spec fn wf(&self) -> bool {
        &&& self.skew < ALIGN
        &&& self.skew + self.cap <= self.data.len()
        &&& (self.address % ALIGN + self.skew) % ALIGN as int == 0
    }

    /// A buffer of at least `size` bytes.
    pub fn new(size: usize) -> (r: AlignedBuf)
        requires
            buffer_size(size as int) <= isize::MAX,
        ensures
            r.wf(),
            r@.len() == buffer_size(size as int),
    {
        let pages: usize = if size == 0 { 1 } else { (size - 1) / ALIGN + 1 };
        proof {
            assert(size > 0 ==> (size + ALIGN - 1) / (ALIGN as int) == (size - 1) / (ALIGN as int) + 1);
            assert(pages * ALIGN == buffer_size(size as int));
        }
        let cap: usize = pages * ALIGN;
        let data: Vec<u8> = vec![0u8; cap + (ALIGN - 1)];
        let address: usize = start_address(&data);
        let skew: usize = skew_for(address);
        AlignedBuf { data, address, skew, cap }
    }

    /// The number of bytes, a multiple of `ALIGN`.
    pub fn capacity(&self) -> (r: usize)
        requires
            self.wf(),
        ensures
            r == self@.len(),
    {
        self.cap
    }

    /// Whether the bytes begin at a multiple of `ALIGN`; they always do.
    pub fn is_aligned(&self) -> (r: bool)
        requires
            self.wf(),
        ensures
            r,
    {
        (self.address % ALIGN + self.skew) % ALIGN == 0
    }

    /// The bytes.
    pub fn as_slice(&self) -> (r: &[u8])
        requires
            self.wf(),
        ensures
            r@ == self@,
    {
        slice_subrange(self.data.as_slice(), self.skew, self.skew + self.cap)
    }

    /// The bytes, to be written to.
    pub fn as_mut_slice(&mut self) -> (r: &mut [u8])
        requires
            old(self).wf(),
        ensures
            r@ == old(self)@,
            final(r)@.len() == r@.len() ==> final(self).wf() && final(self)@ == final(r)@,
    {
        let skew: usize = self.skew;
        let cap: usize = self.cap;
        let all: &mut [u8] = self.data.as_mut_slice();
        let (_, rest) = all.split_at_mut(skew);
        let (mine, _) = rest.split_at_mut(cap);
        mine
    }
}

/// A buffer is whole pages, one at least, and holds what was asked for.
pub proof fn buffer_is_whole_pages(size: usize)
    ensures
        buffer_size(size as int) % (ALIGN as int) == 0,
        buffer_size(size as int) >= size,
        buffer_size(size as int) >= ALIGN,
        buffer_size(size as int) < size + 2 * ALIGN,
{
}

} // verus!
