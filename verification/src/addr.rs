//! Addressing primitives: page numbers, address conversion, page ranges.

use vstd::prelude::*;

verus! {

/// A virtual address, machine-word sized.
pub type VirtAddr = usize;
/// A physical address, machine-word sized.
pub type PhysAddr = usize;

/// Size in bytes of one page.
pub const PAGE_SIZE: usize = 4096;

/// A page of virtual memory, identified by its page number.
#[derive(Debug, Copy, Clone, PartialEq, Eq, Structural)]
pub struct Page {
    pub number: usize,
}

impl Page {
    /// Pages obtained from addresses satisfy this: their start address fits
    /// in a machine word.
    pub open spec fn wf(self) -> bool {
        self.number * PAGE_SIZE <= usize::MAX
    }

    /// First address of the page.
    pub fn start_address(&self) -> (r: VirtAddr)
        requires
            self.wf(),
        ensures
            r == self.number * PAGE_SIZE,
    {
        self.number * PAGE_SIZE
    }

    /// The page containing a given address.
    pub fn of_addr(addr: VirtAddr) -> (r: Self)
        ensures
            r.number == addr as int / PAGE_SIZE as int,
            r.wf(),
    {
        proof {
            vstd::arithmetic::div_mod::lemma_fundamental_div_mod(addr as int, PAGE_SIZE as int);
        }
        Page { number: addr / PAGE_SIZE }
    }

    /// The minimal page range containing every byte of `[begin, end)`.
    pub fn range_of(begin: VirtAddr, end: VirtAddr) -> (r: PageRange)
        requires
            begin < end,
        ensures
            r.start.number == begin as int / PAGE_SIZE as int,
            r.end.number == (end - 1) as int / PAGE_SIZE as int + 1,
            r.wf(),
    {
        proof {
            vstd::arithmetic::div_mod::lemma_fundamental_div_mod((end - 1) as int, PAGE_SIZE as int);
            vstd::arithmetic::div_mod::lemma_div_is_ordered(begin as int, (end - 1) as int, PAGE_SIZE as int);
        }
        PageRange {
            start: Page { number: begin / PAGE_SIZE },
            end: Page { number: (end - 1) / PAGE_SIZE + 1 },
        }
    }
}

/// A range of pages with exclusive upper bound.
#[derive(Debug, Copy, Clone, PartialEq, Eq, Structural)]
pub struct PageRange {
    pub start: Page,
    pub end: Page,
}

impl PageRange {
    /// Every page of the range has a representable start address.
    pub open spec fn wf(self) -> bool {
        self.start.number <= self.end.number && (self.end.number - 1) * PAGE_SIZE <= usize::MAX
    }

    /// The page numbers the range will visit, in order.
    pub open spec fn pages(self) -> Seq<usize> {
        if self.start.number <= self.end.number {
            Seq::new((self.end.number - self.start.number) as nat, |k: int| (self.start.number + k) as usize)
        } else {
            Seq::empty()
        }
    }

    /// Visits the next page, low to high.
    pub fn next(&mut self) -> (r: Option<Page>)
        ensures
            final(self).end == old(self).end,
            old(self).wf() ==> final(self).wf(),
            old(self).start.number < old(self).end.number ==> {
                &&& r == Some(old(self).start)
                &&& final(self).start.number == old(self).start.number + 1
            },
            old(self).start.number >= old(self).end.number ==> {
                &&& r == None::<Page>
                &&& final(self).start == old(self).start
            },
    {
        if self.start.number < self.end.number {
            let page = self.start;
            self.start = Page { number: self.start.number + 1 };
            Some(page)
        } else {
            None
        }
    }
}

/// Law: for `begin < end`, the covering page range visits exactly
/// `ceil(end / PAGE_SIZE) - floor(begin / PAGE_SIZE)` distinct pages,
/// in strictly ascending order.
pub proof fn lemma_covering_page_count(r: PageRange, begin: usize, end: usize)
    requires
        begin < end,
        r.start.number == begin as int / PAGE_SIZE as int,
        r.end.number == (end - 1) as int / PAGE_SIZE as int + 1,
    ensures
        r.pages().len() == (end + PAGE_SIZE - 1) as int / PAGE_SIZE as int - begin as int / PAGE_SIZE as int,
        forall|i: int, j: int| 0 <= i < j < r.pages().len() ==> r.pages()[i] < r.pages()[j],
{
    vstd::arithmetic::div_mod::lemma_div_is_ordered(begin as int, (end - 1) as int, PAGE_SIZE as int);
    assert((end + PAGE_SIZE - 1) as int / PAGE_SIZE as int == (end - 1) as int / PAGE_SIZE as int + 1) by {
        vstd::arithmetic::div_mod::lemma_div_plus_one((end - 1) as int, PAGE_SIZE as int);
    };
}

} // verus!
