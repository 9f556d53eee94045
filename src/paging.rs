//! Page tables as the loaders see them: a map from 4 KiB pages to frames and
//! flags, and an in-memory model of one with the offset-mapping rule.

use vstd::prelude::*;
use std::collections::HashMap;
use crate::addr::{align_down, align_down_spec, lemma_align_facts, PAGE_SIZE};
use crate::frame::PHYS_LIMIT;

verus! {

broadcast use vstd::std_specs::hash::group_hash_axioms;

/// Page-table entry flag: the page is mapped.
pub const FLAG_PRESENT: u64 = 1;

/// Page-table entry flag: the page may be written.
pub const FLAG_WRITABLE: u64 = 2;

/// Page-table entry flag: userspace may reach the page.
pub const FLAG_USER_ACCESSIBLE: u64 = 4;

/// Page-table entry flag: no instruction may be fetched from the page.
pub const FLAG_NO_EXECUTE: u64 = 0x8000_0000_0000_0000;

/// Why a page could not be mapped or unmapped.
#[derive(Copy, Clone, Debug, PartialEq, Eq, Structural)]
pub enum MapError {
    /// The page already has a frame.
    PageAlreadyMapped,
    /// The page has no frame.
    PageNotMapped,
    /// No frame was left for an intermediate page table.
    FrameAllocationFailed,
}

/// A page table that pages can be mapped into and unmapped from.
pub trait Mapper {
    /// The page table's internal invariant.
    spec fn table_wf(&self) -> bool;

    /// The mapped pages, each with its frame and flags.
    spec fn mapped(&self) -> Map<u64, (u64, u64)>;

    /// Map `page` to `frame` with `flags`. On success the page was unmapped
    /// before; on failure nothing changed.
    fn map_to(&mut self, page: u64, frame: u64, flags: u64) -> (r: Result<(), MapError>)
        requires
            old(self).table_wf(),
            page % PAGE_SIZE == 0,
            frame % PAGE_SIZE == 0,
            frame < PHYS_LIMIT,
        ensures
            final(self).table_wf(),
            r is Ok ==> !old(self).mapped().contains_key(page) && final(self).mapped() == old(
                self,
            ).mapped().insert(page, (frame, flags)),
            r is Err ==> final(self).mapped() == old(self).mapped(),
    ;

    /// The physical address that `addr` is mapped to, if its page is mapped.
    fn translate_addr(&self, addr: u64) -> (r: Option<u64>)
        requires
            self.table_wf(),
        ensures
            ({
                let page = align_down_spec(addr as int, PAGE_SIZE as int) as u64;
                &&& r is Some <==> self.mapped().contains_key(page)
                &&& r matches Some(p) ==> p == self.mapped()[page].0 + (addr - page)
            }),
    ;

    /// Unmap `page`, handing back its frame.
    fn unmap(&mut self, page: u64) -> (r: Result<u64, MapError>)
        requires
            old(self).table_wf(),
        ensures
            final(self).table_wf(),
            r matches Ok(f) ==> old(self).mapped().contains_key(page) && f == old(self).mapped()[page].0
                && final(self).mapped() == old(self).mapped().remove(page) && f % PAGE_SIZE == 0 && f
                < PHYS_LIMIT,
            r is Err ==> final(self).mapped() == old(self).mapped(),
    ;
}

/// A page table held as a map from page to frame and flags.
pub struct PageTableModel {
    entries: HashMap<u64, (u64, u64)>,
}

impl PageTableModel {
    /// An empty page table.
    pub fn new() -> (r: PageTableModel)
        ensures
            r.table_wf(),
            r.mapped() == Map::<u64, (u64, u64)>::empty(),
    {
        PageTableModel { entries: HashMap::new() }
    }

    /// The frame and flags of `page`, if mapped.
    pub fn entry(&self, page: u64) -> (r: Option<(u64, u64)>)
        ensures
            r is Some <==> self.mapped().contains_key(page),
            r matches Some(e) ==> e == self.mapped()[page],
    {
        match self.entries.get(&page) {
            Some(e) => Some(*e),
            None => None,
        }
    }

    /// Number of mapped pages.
    pub fn len(&self) -> (r: usize)
        ensures
            r == self.mapped().len(),
    {
        self.entries.len()
    }
}

impl Mapper for PageTableModel {
    closed spec fn table_wf(&self) -> bool {
        forall|p: u64| #[trigger] self.entries@.contains_key(p) ==> self.entries@[p].0 < PHYS_LIMIT
            && self.entries@[p].0 % PAGE_SIZE == 0
    }

    closed spec fn mapped(&self) -> Map<u64, (u64, u64)> {
        self.entries@
    }

    fn map_to(&mut self, page: u64, frame: u64, flags: u64) -> (r: Result<(), MapError>) {
        if self.entries.contains_key(&page) {
            return Err(MapError::PageAlreadyMapped);
        }
        self.entries.insert(page, (frame, flags));
        Ok(())
    }

    fn translate_addr(&self, addr: u64) -> (r: Option<u64>) {
        proof {
            lemma_align_facts(addr as int, PAGE_SIZE as int);
        }
        let page = align_down(addr, PAGE_SIZE);
        match self.entries.get(&page) {
            Some(e) => Some(e.0 + (addr - page)),
            None => None,
        }
    }

    fn unmap(&mut self, page: u64) -> (r: Result<u64, MapError>) {
        match self.entries.remove(&page) {
            Some(e) => Ok(e.0),
            None => Err(MapError::PageNotMapped),
        }
    }
}

} // verus!
