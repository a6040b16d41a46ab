//! The page store: the image of the backing file as a sequence of pages.
use vstd::prelude::*;
use crate::error::Error;
use crate::node_type::Offset;
use crate::page::Page;
use crate::page_layout::PAGE_SIZE;
use vstd::slice::{slice_subrange, slice_to_vec};

verus! {

/// The pages of one backing file, in the order in which they lie in it.
/// A page is created by appending it and changed by overwriting it in place;
/// there is no other way to change the store.
#[derive(Debug)]
pub struct Pager {
    pages: Vec<Page>,
}

impl View for Pager {
    type V = Seq<Seq<u8>>;

    closed spec fn view(&self) -> Seq<Seq<u8>> {
        Seq::new(self.pages@.len(), |i: int| self.pages@[i]@)
    }
}

impl Pager {
    /// Every page of the store is a whole page.
    pub closed spec fn wf(&self) -> bool {
        forall|i: int| 0 <= i < self.pages@.len() ==> (#[trigger] self.pages@[i]).wf()
    }

    /// A store without pages.
    pub fn new() -> (pager: Pager)
        ensures
            pager.wf(),
            pager@ == Seq::<Seq<u8>>::empty(),
    {
        let pager = Pager { pages: Vec::new() };
        assert(pager@ =~= Seq::<Seq<u8>>::empty());
        pager
    }

    /// The store that a file image holds: page `i` is the `PAGE_SIZE` bytes
    /// from `i * PAGE_SIZE` on. An image that ends within a page is refused.
    pub fn from_bytes(bytes: &Vec<u8>) -> (r: Result<Pager, Error>)
        ensures
            r is Ok <==> bytes@.len() % (PAGE_SIZE as nat) == 0,
            r matches Ok(pager) ==> {
                &&& pager.wf()
                &&& pager@.len() * PAGE_SIZE == bytes@.len()
                &&& forall|i: int|
                    0 <= i < pager@.len() ==> #[trigger] pager@[i] == bytes@.subrange(
                        i * PAGE_SIZE,
                        (i + 1) * PAGE_SIZE,
                    )
            },
            r matches Err(e) ==> e == Error::IoError,
    {
        if bytes.len() % PAGE_SIZE != 0 {
            return Err(Error::IoError);
        }
        let count = bytes.len() / PAGE_SIZE;
        let mut pages: Vec<Page> = Vec::with_capacity(count);
        let mut i: usize = 0;
        while i < count
            invariant
                i <= count,
                count * 4096 == bytes@.len(),
                bytes@.len() <= usize::MAX,
                PAGE_SIZE == 4096,
                pages@.len() == i,
                forall|j: int| 0 <= j < i ==> (#[trigger] pages@[j]).wf(),
                forall|j: int|
                    0 <= j < i ==> (#[trigger] pages@[j])@ == bytes@.subrange(
                        j * PAGE_SIZE,
                        (j + 1) * PAGE_SIZE,
                    ),
            decreases count - i,
        {
            let chunk = slice_to_vec(
                slice_subrange(bytes.as_slice(), i * PAGE_SIZE, (i + 1) * PAGE_SIZE),
            );
            let page = match Page::from_bytes(chunk) {
                Ok(page) => page,
                Err(_) => {
                    return Err(Error::IoError);
                },
            };
            pages.push(page);
            i += 1;
        }
        Ok(Pager { pages })
    }

    /// The number of pages in the store, which is the offset that the next
    /// new page gets.
    pub fn cursor(&self) -> (n: usize)
        ensures
            n == self@.len(),
    {
        self.pages.len()
    }

    /// A copy of the page at `offset`.
    pub fn get_page(&self, offset: &Offset) -> (r: Result<Page, Error>)
        requires
            self.wf(),
        ensures
            r is Ok <==> offset.0 < self@.len(),
            r matches Ok(page) ==> page.wf() && page@ == self@[offset.0 as int],
            r matches Err(e) ==> e == Error::IoError,
    {
        if offset.0 >= self.pages.len() {
            return Err(Error::IoError);
        }
        Ok(self.pages[offset.0].copy())
    }

    /// Appends `page` to the store and gives the offset it was written at.
    pub fn write_page(&mut self, page: Page) -> (r: Result<Offset, Error>)
        requires
            old(self).wf(),
            page.wf(),
        ensures
            final(self).wf(),
            r matches Ok(offset) && offset.0 == old(self)@.len(),
            final(self)@ == old(self)@.push(page@),
    {
        let offset = Offset(self.pages.len());
        self.pages.push(page);
        assert(self@ =~= old(self)@.push(page@));
        Ok(offset)
    }

    /// Overwrites the page at `offset`. The number of pages stays the same.
    pub fn write_page_at_offset(&mut self, page: Page, offset: &Offset) -> (r: Result<(), Error>)
        requires
            old(self).wf(),
            page.wf(),
        ensures
            final(self).wf(),
            r is Ok <==> offset.0 < old(self)@.len(),
            r is Ok ==> final(self)@ == old(self)@.update(offset.0 as int, page@),
            r matches Err(e) ==> e == Error::IoError && final(self)@ == old(self)@,
    {
        if offset.0 >= self.pages.len() {
            return Err(Error::IoError);
        }
        self.pages[offset.0] = page;
        assert(self@ =~= old(self)@.update(offset.0 as int, page@));
        Ok(())
    }
}

} // verus!
