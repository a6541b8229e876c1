//! Trait for abstracting dual page storage

use vstd::prelude::*;

verus! {

/// One of the two pages of a dual page storage.
#[derive(Clone, Copy, Debug, PartialEq, Eq, Structural)]
pub enum Page {
    A,
    B,
}

impl Page {
    /// The page that is not this one.
    pub open spec fn opposite(self) -> Page {
        match self {
            Page::A => Page::B,
            Page::B => Page::A,
        }
    }

    pub fn other(&self) -> (page: Self)
        ensures
            page == self.opposite(),
            page != *self,
    {
        match self {
            Page::A => Page::B,
            Page::B => Page::A,
        }
    }
}

/// A call that changes the storage.
pub enum FlashCall {
    Erase(Page),
    Write(Seq<u8>),
    Flush,
}

/// The value of every byte of an erased page.
pub const ERASED: u8 = 0xff;

/// Whether all of `contents` is erased.
pub open spec fn is_erased(contents: Seq<u8>) -> bool {
    forall|i: int| 0 <= i < contents.len() ==> contents[i] == ERASED
}

/// A trait to be implemented by a flash driver to allow writing persistent data
///
/// What a driver stores is described by `contents`, `session` and `calls`. By default they are
/// functions of the driver of which nothing is known. A driver meets the contract only under
/// definitions of its own.
pub trait DualPageFlash {
    type Error;

    /// What the page holds when it is read.
    closed spec fn contents(&self, page: Page) -> Seq<u8> {
        arbitrary::<spec_fn(&Self, Page) -> Seq<u8>>()(self, page)
    }

    /// The page selected for writing and all bytes written to it since it was erased, until the
    /// writes are completed by a flush.
    closed spec fn session(&self) -> Option<(Page, Seq<u8>)> {
        arbitrary::<spec_fn(&Self) -> Option<(Page, Seq<u8>)>>()(self)
    }

    /// Every change made to the storage so far, oldest first.
    closed spec fn calls(&self) -> Seq<FlashCall> {
        arbitrary::<spec_fn(&Self) -> Seq<FlashCall>>()(self)
    }

    /// Get one of the pages as a slice
    fn page(&self, page: Page) -> (data: &[u8])
        ensures
            data@ == self.contents(page),
    ;

    /// Select one of the pages for writing and erase it
    ///
    /// The other page is left alone.
    fn erase_page(&mut self, page: Page)
        ensures
            final(self).contents(page).len() == old(self).contents(page).len(),
            is_erased(final(self).contents(page)),
            final(self).contents(page.opposite()) == old(self).contents(page.opposite()),
            final(self).session() == Some((page, Seq::<u8>::empty())),
            final(self).calls() == old(self).calls().push(FlashCall::Erase(page)),
    ;

    /// Write data to the already erased page
    ///
    /// Data can be written in any sizes, but due to restrictions in the write word size, may be
    /// cached until a complete word is available. Call flush after all data is written to ensure
    /// the last word is written to flash. What the selected page holds in between is left open.
    ///
    /// `erase_page()` must be called before calling write, or it will panic.
    fn write(&mut self, data: &[u8])
        requires
            old(self).session() matches Some((page, written)) && written.len() + data@.len()
                <= old(self).contents(page).len(),
        ensures
            old(self).session() matches Some((page, written)) && {
                &&& final(self).session() == Some((page, written + data@))
                &&& final(self).contents(page).len() == old(self).contents(page).len()
                &&& final(self).contents(page.opposite()) == old(self).contents(page.opposite())
            },
            final(self).calls() == old(self).calls().push(FlashCall::Write(data@)),
    ;

    /// Must be called after completing all writes
    fn flush(&mut self)
        requires
            old(self).session() is Some,
        ensures
            old(self).session() matches Some((page, written)) && {
                &&& final(self).contents(page).len() == old(self).contents(page).len()
                &&& final(self).contents(page).take(written.len() as int) == written
                &&& final(self).contents(page.opposite()) == old(self).contents(page.opposite())
            },
            final(self).session() is None,
            final(self).calls() == old(self).calls().push(FlashCall::Flush),
    ;
}

/// Either page is the other one's other page.
pub proof fn law_other_page_is_mutual(page: Page)
    ensures
        page.opposite() != page,
        page.opposite().opposite() == page,
{
}

/// Erased contents hold ones in all bits.
pub proof fn law_erased_is_all_ones(contents: Seq<u8>)
    ensures
        is_erased(contents) <==> contents == Seq::new(contents.len(), |i: int| 0xffu8),
{
    if is_erased(contents) {
        assert(contents =~= Seq::new(contents.len(), |i: int| 0xffu8));
    }
}

} // verus!
