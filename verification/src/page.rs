//! A page: a fixed-size byte buffer with bounds-checked accessors.
use vstd::prelude::*;
use vstd::bytes::{spec_u64_from_le_bytes, spec_u64_to_le_bytes, u64_from_le_bytes, u64_to_le_bytes};
use vstd::slice::{slice_subrange, slice_to_vec};
use crate::error::Error;
use crate::page_layout::{PAGE_SIZE, PTR_SIZE};

verus! {

/// A buffer of `PAGE_SIZE` bytes. It knows nothing of what the bytes mean.
#[derive(Debug)]
pub struct Page {
    data: Vec<u8>,
}

impl View for Page {
    type V = Seq<u8>;

    closed spec fn view(&self) -> Seq<u8> {
        self.data@
    }
}

/// `old` with the bytes from `offset` on replaced by `bytes`.
pub open spec fn overwrite(old: Seq<u8>, offset: int, bytes: Seq<u8>) -> Seq<u8> {
    Seq::new(
        old.len(),
        |i: int|
            if offset <= i < offset + bytes.len() {
                bytes[i - offset]
            } else {
                old[i]
            },
    )
}

/// Whether `len` bytes from `offset` on lie within a page.
pub open spec fn in_page(offset: int, len: int) -> bool {
    0 <= offset && 0 <= len && offset + len <= PAGE_SIZE
}

impl Page {
    /// A page holds exactly `PAGE_SIZE` bytes.
    pub closed spec fn wf(&self) -> bool {
        self.data@.len() == PAGE_SIZE
    }

    /// A well-formed page views as `PAGE_SIZE` bytes.
    pub broadcast proof fn lemma_wf_len(&self)
        requires
            #[trigger] self.wf(),
        ensures
            self@.len() == PAGE_SIZE,
    {
    }

    /// A page of zeros.
    pub fn new() -> (page: Page)
        ensures
            page.wf(),
            page@ == Seq::new(PAGE_SIZE as nat, |i: int| 0u8),
    {
        let mut data: Vec<u8> = Vec::with_capacity(PAGE_SIZE);
        let mut i: usize = 0;
        while i < PAGE_SIZE
            invariant
                i <= PAGE_SIZE,
                data@ == Seq::new(i as nat, |j: int| 0u8),
            decreases PAGE_SIZE - i,
        {
            data.push(0u8);
            assert(data@ =~= Seq::new((i + 1) as nat, |j: int| 0u8));
            i += 1;
        }
        Page { data }
    }

    /// The page that holds `data`, which must be `PAGE_SIZE` bytes long.
    pub fn from_bytes(data: Vec<u8>) -> (r: Result<Page, Error>)
        ensures
            r is Ok <==> data@.len() == PAGE_SIZE,
            r matches Ok(page) ==> page.wf() && page@ == data@,
            r matches Err(e) ==> e == Error::PageOverflow,
    {
        if data.len() != PAGE_SIZE {
            return Err(Error::PageOverflow);
        }
        Ok(Page { data })
    }

    /// A copy of the page's bytes.
    pub fn to_bytes(&self) -> (bytes: Vec<u8>)
        ensures
            bytes@ == self@,
    {
        slice_to_vec(self.data.as_slice())
    }

    /// A copy of the page.
    pub fn copy(&self) -> (page: Page)
        ensures
            page@ == self@,
            page.wf() == self.wf(),
    {
        Page { data: slice_to_vec(self.data.as_slice()) }
    }

    /// The `len` bytes that start at `offset`.
    pub fn read_fixed_bytes(&self, offset: usize, len: usize) -> (r: Result<Vec<u8>, Error>)
        requires
            self.wf(),
        ensures
            r is Ok <==> in_page(offset as int, len as int),
            r matches Ok(bytes) ==> bytes@ == self@.subrange(offset as int, offset + len),
            r matches Err(e) ==> e == Error::PageOverflow,
    {
        if len > PAGE_SIZE || offset > PAGE_SIZE - len {
            return Err(Error::PageOverflow);
        }
        Ok(slice_to_vec(slice_subrange(self.data.as_slice(), offset, offset + len)))
    }

    /// Puts `bytes` on the page from `offset` on. A write that does not fit
    /// changes nothing.
    pub fn write_fixed_bytes(&mut self, offset: usize, bytes: &Vec<u8>) -> (r: Result<(), Error>)
        requires
            old(self).wf(),
        ensures
            final(self).wf(),
            r is Ok <==> in_page(offset as int, bytes@.len() as int),
            r is Ok ==> final(self)@ == overwrite(old(self)@, offset as int, bytes@),
            r matches Err(e) ==> e == Error::PageOverflow && final(self)@ == old(self)@,
    {
        let len = bytes.len();
        if len > PAGE_SIZE || offset > PAGE_SIZE - len {
            return Err(Error::PageOverflow);
        }
        let mut i: usize = 0;
        while i < len
            invariant
                i <= len,
                len == bytes@.len(),
                offset + len <= PAGE_SIZE,
                self.data@.len() == PAGE_SIZE,
                self.data@ == overwrite(old(self).data@, offset as int, bytes@.subrange(0, i as int)),
            decreases len - i,
        {
            self.data[offset + i] = bytes[i];
            assert(self.data@ =~= overwrite(
                old(self).data@,
                offset as int,
                bytes@.subrange(0, i as int + 1),
            ));
            i += 1;
        }
        assert(bytes@.subrange(0, len as int) =~= bytes@);
        Ok(())
    }

    /// The byte at `offset`.
    pub fn read_byte(&self, offset: usize) -> (r: Result<u8, Error>)
        requires
            self.wf(),
        ensures
            r is Ok <==> offset < PAGE_SIZE,
            r matches Ok(byte) ==> byte == self@[offset as int],
            r matches Err(e) ==> e == Error::PageOverflow,
    {
        if offset >= PAGE_SIZE {
            return Err(Error::PageOverflow);
        }
        Ok(self.data[offset])
    }

    /// Puts `byte` at `offset`.
    pub fn write_byte(&mut self, offset: usize, byte: u8) -> (r: Result<(), Error>)
        requires
            old(self).wf(),
        ensures
            final(self).wf(),
            r is Ok <==> offset < PAGE_SIZE,
            r is Ok ==> final(self)@ == old(self)@.update(offset as int, byte),
            r matches Err(e) ==> e == Error::PageOverflow && final(self)@ == old(self)@,
    {
        if offset >= PAGE_SIZE {
            return Err(Error::PageOverflow);
        }
        self.data[offset] = byte;
        Ok(())
    }

    /// The 64-bit number whose little-endian bytes start at `offset`.
    pub fn read_u64(&self, offset: usize) -> (r: Result<u64, Error>)
        requires
            self.wf(),
        ensures
            r is Ok <==> in_page(offset as int, PTR_SIZE as int),
            r matches Ok(value) ==> value == spec_u64_from_le_bytes(
                self@.subrange(offset as int, offset + PTR_SIZE),
            ),
            r matches Err(e) ==> e == Error::PageOverflow,
    {
        if offset > PAGE_SIZE - PTR_SIZE {
            return Err(Error::PageOverflow);
        }
        Ok(u64_from_le_bytes(slice_subrange(self.data.as_slice(), offset, offset + PTR_SIZE)))
    }

    /// Puts the little-endian bytes of `value` on the page from `offset` on.
    pub fn write_u64(&mut self, offset: usize, value: u64) -> (r: Result<(), Error>)
        requires
            old(self).wf(),
        ensures
            final(self).wf(),
            r is Ok <==> in_page(offset as int, PTR_SIZE as int),
            r is Ok ==> final(self)@ == overwrite(
                old(self)@,
                offset as int,
                spec_u64_to_le_bytes(value),
            ),
            r matches Err(e) ==> e == Error::PageOverflow && final(self)@ == old(self)@,
    {
        let bytes = u64_to_le_bytes(value);
        self.write_fixed_bytes(offset, &bytes)
    }
}

} // verus!
