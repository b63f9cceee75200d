//! Generic page table and page entry interfaces.
//!
//! Implemented per architecture; the rest of the crate is verified against
//! the contracts stated here.

use vstd::prelude::*;
use crate::addr::{PhysAddr, VirtAddr, PAGE_SIZE};

verus! {

/// The logical content of one page-table entry.
#[derive(Debug, Copy, Clone, PartialEq, Eq, Structural)]
pub struct EntryData {
    pub target: PhysAddr,
    pub present: bool,
    pub writable: bool,
    pub user: bool,
    pub execute: bool,
    pub accessed: bool,
    pub dirty: bool,
    pub writable_shared: bool,
    pub readonly_shared: bool,
    pub swapped: bool,
}

/// The entry a page table writes when a page is first mapped to `target`:
/// present and writable, with every other attribute clear.
pub open spec fn fresh_entry(target: PhysAddr) -> EntryData {
    EntryData {
        target,
        present: true,
        writable: true,
        user: false,
        execute: false,
        accessed: false,
        dirty: false,
        writable_shared: false,
        readonly_shared: false,
        swapped: false,
    }
}

/// Page entry interface.
///
/// Any mutation becomes visible to the MMU only after `update` has run;
/// `update` itself leaves the logical content unchanged.
pub trait Entry: Sized {
    /// The logical content of the entry.
    spec fn entry_data(&self) -> EntryData;

    /// Flushes the entry's slot from the TLB/MMU. Must be called after any
    /// change for it to become effective.
    fn update(&mut self)
        ensures
            final(self).entry_data() == old(self).entry_data(),
    ;

    /// Set when the page was accessed.
    fn accessed(&self) -> (r: bool)
        ensures
            r == self.entry_data().accessed,
    ;

    /// Set when the page was written.
    fn dirty(&self) -> (r: bool)
        ensures
            r == self.entry_data().dirty,
    ;

    /// Writing the page faults while this is clear.
    fn writable(&self) -> (r: bool)
        ensures
            r == self.entry_data().writable,
    ;

    /// Accessing the page faults while this is clear.
    fn present(&self) -> (r: bool)
        ensures
            r == self.entry_data().present,
    ;

    fn clear_accessed(&mut self)
        ensures
            final(self).entry_data() == (EntryData { accessed: false, ..old(self).entry_data() }),
    ;

    fn clear_dirty(&mut self)
        ensures
            final(self).entry_data() == (EntryData { dirty: false, ..old(self).entry_data() }),
    ;

    fn set_writable(&mut self, value: bool)
        ensures
            final(self).entry_data() == (EntryData { writable: value, ..old(self).entry_data() }),
    ;

    fn set_present(&mut self, value: bool)
        ensures
            final(self).entry_data() == (EntryData { present: value, ..old(self).entry_data() }),
    ;

    /// The physical frame the entry points at.
    fn target(&self) -> (r: PhysAddr)
        ensures
            r == self.entry_data().target,
    ;

    fn set_target(&mut self, target: PhysAddr)
        ensures
            final(self).entry_data() == (EntryData { target, ..old(self).entry_data() }),
    ;

    // Copy-on-write extension.
    fn writable_shared(&self) -> (r: bool)
        ensures
            r == self.entry_data().writable_shared,
    ;

    fn readonly_shared(&self) -> (r: bool)
        ensures
            r == self.entry_data().readonly_shared,
    ;

    fn set_shared(&mut self, writable: bool)
        ensures
            final(self).entry_data() == (EntryData {
                writable_shared: writable,
                readonly_shared: !writable,
                ..old(self).entry_data()
            }),
    ;

    fn clear_shared(&mut self)
        ensures
            final(self).entry_data() == (EntryData {
                writable_shared: false,
                readonly_shared: false,
                ..old(self).entry_data()
            }),
    ;

    // Swap extension.
    fn swapped(&self) -> (r: bool)
        ensures
            r == self.entry_data().swapped,
    ;

    fn set_swapped(&mut self, value: bool)
        ensures
            final(self).entry_data() == (EntryData { swapped: value, ..old(self).entry_data() }),
    ;

    fn user(&self) -> (r: bool)
        ensures
            r == self.entry_data().user,
    ;

    fn set_user(&mut self, value: bool)
        ensures
            final(self).entry_data() == (EntryData { user: value, ..old(self).entry_data() }),
    ;

    fn execute(&self) -> (r: bool)
        ensures
            r == self.entry_data().execute,
    ;

    fn set_execute(&mut self, value: bool)
        ensures
            final(self).entry_data() == (EntryData { execute: value, ..old(self).entry_data() }),
    ;
}

/// An active, editable page table: a partial map from page numbers to
/// entries, edited one page-aligned virtual address at a time.
pub trait PageTable: Sized {
    type E: Entry;

    /// Page number -> entry content, for every currently mapped page.
    spec fn table(&self) -> Map<usize, EntryData>;

    /// Maps the page at `addr` to the frame `target` and returns the freshly
    /// written entry, so the caller can adjust its attributes in place.
    fn map(&mut self, addr: VirtAddr, target: PhysAddr) -> (entry: &mut Self::E)
        requires
            addr % PAGE_SIZE == 0,
            !old(self).table().contains_key((addr / PAGE_SIZE) as usize),
        ensures
            entry.entry_data() == fresh_entry(target),
            final(self).table() == old(self).table().insert(
                (addr / PAGE_SIZE) as usize,
                final(entry).entry_data(),
            ),
    ;

    /// Unmaps the page at `addr` and flushes it.
    fn unmap(&mut self, addr: VirtAddr)
        requires
            addr % PAGE_SIZE == 0,
            old(self).table().contains_key((addr / PAGE_SIZE) as usize),
        ensures
            final(self).table() == old(self).table().remove((addr / PAGE_SIZE) as usize),
    ;

    /// The existing entry for `addr`; the caller flushes if it mutates.
    fn get_entry(&mut self, addr: VirtAddr) -> (entry: &mut Self::E)
        requires
            addr % PAGE_SIZE == 0,
            old(self).table().contains_key((addr / PAGE_SIZE) as usize),
        ensures
            entry.entry_data() == old(self).table()[(addr / PAGE_SIZE) as usize],
            final(self).table() == old(self).table().insert(
                (addr / PAGE_SIZE) as usize,
                final(entry).entry_data(),
            ),
    ;
}

/// The physical frame allocator the core draws anonymous backing frames
/// from. `avail` is the set of frames it can still hand out.
pub trait FrameAllocator: Sized {
    /// The frames currently available for allocation.
    spec fn avail(&self) -> Set<PhysAddr>;

    /// The exact order in which the allocator will yield its frames, so
    /// that the sequence of draws is a function of the allocator's state.
    spec fn frame_order(&self) -> Seq<PhysAddr>;

    /// Takes the next frame, the head of `frame_order`; returns `None`
    /// exactly when none is left.
    fn alloc_frame(&mut self) -> (r: Option<PhysAddr>)
        ensures
            match r {
                Some(f) => old(self).avail().contains(f) && final(self).avail()
                    == old(self).avail().remove(f) && old(self).frame_order().len() > 0
                    && f == old(self).frame_order()[0] && final(self).frame_order()
                    == old(self).frame_order().drop_first(),
                None => old(self).avail().is_empty() && final(self).avail()
                    == old(self).avail() && final(self).frame_order()
                    == old(self).frame_order(),
            },
            old(self).avail().finite() ==> final(self).avail().finite(),
    ;

    /// How many frames are left, when that number is finite.
    fn free_count(&self) -> (r: usize)
        ensures
            self.avail().finite() ==> r == self.avail().len(),
    ;

    /// Returns a frame. The caller must own it: a frame still available
    /// cannot be freed a second time.
    fn dealloc_frame(&mut self, target: PhysAddr)
        requires
            !old(self).avail().contains(target),
        ensures
            final(self).avail() == old(self).avail().insert(target),
            old(self).avail().finite() ==> final(self).avail().finite(),
    ;
}

} // verus!
