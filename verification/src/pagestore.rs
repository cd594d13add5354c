//! The page store facade: the narrow contract the tree consumes for pages
//! that live outside memory. This in-memory build never evicts, so the store
//! holds nothing and hands out fresh disk addresses on request.

use vstd::prelude::*;

use crate::base::PageVer;
use crate::error::Error;

verus! {

/// The summary of an on-disk page.
pub struct PageInfo {
    pub ver: PageVer,
    pub len: u8,
    pub is_index: bool,
}

/// The durable page store. Nothing is ever flushed in this build, so no
/// disk address resolves to a page.
pub struct PageStore {
    acquired: u64,
}

impl PageStore {
    /// How many disk addresses have been handed out.
    pub closed spec fn acquired_spec(self) -> u64 {
        self.acquired
    }

    pub fn open(_opts: &crate::Options) -> (r: Result<PageStore, Error>)
        ensures
            match r {
                Ok(s) => s.acquired_spec() == 0,
                Err(_) => false,
            },
    {
        Ok(PageStore { acquired: 0 })
    }

    /// The summary of the page at a disk address; `None` while nothing has
    /// been flushed.
    pub fn page_info(&self, _addr: u64) -> (r: Option<PageInfo>)
        ensures
            r is None,
    {
        None
    }

    /// Loads a page from disk; with nothing flushed this reports an I/O
    /// failure for every address.
    pub fn load_page(&self, _addr: u64) -> (r: Result<Vec<u8>, Error>)
        ensures
            match r {
                Ok(_) => false,
                Err(e) => e is Io,
            },
    {
        Err(Error::Io)
    }

    /// Reserves a fresh disk address.
    pub fn acquire_page(&mut self) -> (r: u64)
        requires
            old(self).acquired_spec() < u64::MAX,
        ensures
            final(self).acquired_spec() == old(self).acquired_spec() + 1,
            r == old(self).acquired_spec(),
    {
        let r = self.acquired;
        self.acquired = self.acquired + 1;
        r
    }

    /// Returns a disk address to the store.
    pub fn release_page(&mut self, _addr: u64)
        ensures
            final(self).acquired_spec() == old(self).acquired_spec(),
    {
    }
}

} // verus!
