//! Memory areas, attributes, and the address-space aggregate.
//!
//! A `MemorySet` holds everything memory-related a thread needs: a list of
//! non-overlapping `MemoryArea`s, an owned inactive page table in which every
//! page of every area is mapped, and a kernel stack.

use vstd::prelude::*;
use crate::addr::{Page, PhysAddr, VirtAddr, PAGE_SIZE};
use crate::paging::{fresh_entry, Entry, EntryData, FrameAllocator, PageTable};

verus! {

broadcast use vstd::set::group_set_axioms;

/// Attributes of a memory area, applied to each of its page entries.
#[derive(Debug, Copy, Clone, PartialEq, Eq, Structural)]
pub struct MemoryAttr {
    pub user: bool,
    pub readonly: bool,
    pub execute: bool,
    pub hidden: bool,
}

/// What applying an attribute set does to an entry: it only ever adds
/// restrictions, never widens permissions.
pub open spec fn applied(e: EntryData, attr: MemoryAttr) -> EntryData {
    EntryData {
        user: e.user || attr.user,
        writable: e.writable && !attr.readonly,
        execute: e.execute || attr.execute,
        present: e.present && !attr.hidden,
        ..e
    }
}

impl Default for MemoryAttr {
    /// All flags clear.
    fn default() -> (r: Self)
        ensures
            r == (MemoryAttr { user: false, readonly: false, execute: false, hidden: false }),
    {
        MemoryAttr { user: false, readonly: false, execute: false, hidden: false }
    }
}

impl MemoryAttr {
    /// Marks the area user-accessible.
    pub fn user(self) -> (r: Self)
        ensures
            r == (MemoryAttr { user: true, ..self }),
    {
        MemoryAttr { user: true, ..self }
    }

    /// Marks the area readonly.
    pub fn readonly(self) -> (r: Self)
        ensures
            r == (MemoryAttr { readonly: true, ..self }),
    {
        MemoryAttr { readonly: true, ..self }
    }

    /// Marks the area executable.
    pub fn execute(self) -> (r: Self)
        ensures
            r == (MemoryAttr { execute: true, ..self }),
    {
        MemoryAttr { execute: true, ..self }
    }

    /// Marks the area's pages not-present.
    pub fn hidden(self) -> (r: Self)
        ensures
            r == (MemoryAttr { hidden: true, ..self }),
    {
        MemoryAttr { hidden: true, ..self }
    }

    /// Applies the attributes to a page entry and commits the entry if
    /// anything was set.
    pub fn apply<E: Entry>(&self, entry: &mut E)
        ensures
            final(entry).entry_data() == applied(old(entry).entry_data(), *self),
    {
        if self.user {
            entry.set_user(true);
        }
        if self.readonly {
            entry.set_writable(false);
        }
        if self.execute {
            entry.set_execute(true);
        }
        if self.hidden {
            entry.set_present(false);
        }
        if self.user || self.readonly || self.execute || self.hidden {
            entry.update();
        }
    }
}

/// Law: applying attributes is additive in the restrictive direction. It
/// never makes an entry present, writable for the worse, or strips a
/// permission bit that the attributes do not mention.
pub proof fn lemma_apply_additive(e: EntryData, attr: MemoryAttr)
    ensures
        applied(e, attr).writable ==> e.writable,
        applied(e, attr).present ==> e.present,
        e.user ==> applied(e, attr).user,
        e.execute ==> applied(e, attr).execute,
        applied(e, attr).target == e.target,
{
}

/// A contiguous piece of virtual memory with uniform attributes and a
/// single backing policy.
#[derive(Debug, Copy, Clone)]
pub struct MemoryArea {
    pub start_addr: VirtAddr,
    pub end_addr: VirtAddr,
    pub phys_start_addr: Option<PhysAddr>,
    pub flags: MemoryAttr,
    pub name: &'static str,
}

impl MemoryArea {
    /// First page the area touches.
    pub open spec fn start_page(self) -> int {
        self.start_addr as int / PAGE_SIZE as int
    }

    /// One past the last page the area touches.
    pub open spec fn end_page(self) -> int
        recommends
            self.start_addr < self.end_addr,
    {
        (self.end_addr - 1) as int / PAGE_SIZE as int + 1
    }

    /// Whether page number `p` belongs to the area's covering page range.
    pub open spec fn page_in(self, p: usize) -> bool {
        self.start_page() <= p < self.end_page()
    }

    /// Backed by freshly allocated frames rather than a fixed physical range.
    pub open spec fn anonymous(self) -> bool {
        self.phys_start_addr is None
    }

    /// Number of pages the area covers.
    pub open spec fn page_count(self) -> int {
        self.end_page() - self.start_page()
    }

    /// The conditions under which the area can be mapped: it is non-empty,
    /// and a physically backed area starts on a page boundary with a backing
    /// range that fits in the address width.
    pub open spec fn map_ok(self) -> bool {
        &&& self.start_addr < self.end_addr
        &&& match self.phys_start_addr {
            Some(base) => self.start_addr % PAGE_SIZE == 0 && base + (self.end_addr
                - self.start_addr) <= usize::MAX,
            None => true,
        }
    }

    /// What a correctly mapped entry for page `p` of this area looks like:
    /// the attributes are applied over a freshly mapped entry, and a
    /// physically backed area pins the frame to `v - start + base`.
    pub open spec fn page_entry_ok(self, p: usize, e: EntryData) -> bool {
        &&& e == applied(fresh_entry(e.target), self.flags)
        &&& match self.phys_start_addr {
            Some(base) => e.target == p * PAGE_SIZE + base - self.start_addr,
            None => true,
        }
    }

    /// The frames backing this area's pages in table `t`.
    pub open spec fn frames_in(self, t: Map<usize, EntryData>) -> Set<PhysAddr> {
        Set::new(|f: PhysAddr| exists|p: usize| self.page_in(p) && t.contains_key(p) && t[p].target == f)
    }

    /// A new area backed by freshly allocated frames at map time.
    pub fn new(start_addr: VirtAddr, end_addr: VirtAddr, flags: MemoryAttr, name: &'static str) -> (r: Self)
        requires
            start_addr <= end_addr,
        ensures
            r == (MemoryArea { start_addr, end_addr, phys_start_addr: None, flags, name }),
    {
        MemoryArea { start_addr, end_addr, phys_start_addr: None, flags, name }
    }

    /// A new area mapped identically: virtual and physical addresses agree.
    ///
    /// Mapping happens only when the area is pushed into a `MemorySet`.
    pub fn new_identity(start_addr: VirtAddr, end_addr: VirtAddr, flags: MemoryAttr, name: &'static str) -> (r: Self)
        requires
            start_addr <= end_addr,
        ensures
            r == (MemoryArea { start_addr, end_addr, phys_start_addr: Some(start_addr), flags, name }),
    {
        MemoryArea { start_addr, end_addr, phys_start_addr: Some(start_addr), flags, name }
    }

    /// A new area covering virtual `[phys_start_addr + offset, phys_end_addr
    /// + offset)`, mapped onto physical `[phys_start_addr, phys_end_addr)`.
    ///
    /// Mapping happens only when the area is pushed into a `MemorySet`.
    pub fn new_physical(phys_start_addr: PhysAddr, phys_end_addr: PhysAddr, offset: usize, flags: MemoryAttr, name: &'static str) -> (r: Self)
        requires
            phys_start_addr <= phys_end_addr,
            phys_end_addr + offset <= usize::MAX,
        ensures
            r == (MemoryArea {
                start_addr: (phys_start_addr + offset) as usize,
                end_addr: (phys_end_addr + offset) as usize,
                phys_start_addr: Some(phys_start_addr),
                flags,
                name,
            }),
    {
        let start_addr = phys_start_addr + offset;
        let end_addr = phys_end_addr + offset;
        MemoryArea { start_addr, end_addr, phys_start_addr: Some(phys_start_addr), flags, name }
    }

    /// Whether a virtual address lies inside the area.
    pub fn contains(&self, addr: VirtAddr) -> (r: bool)
        ensures
            r == (self.start_addr <= addr < self.end_addr),
    {
        addr >= self.start_addr && addr < self.end_addr
    }

    /// Whether two areas' covering page ranges intersect.
    pub open spec fn spec_overlaps(self, other: MemoryArea) -> bool {
        !(self.end_page() <= other.start_page() || self.start_page() >= other.end_page())
    }

    /// Whether two areas overlap, at page granularity.
    pub fn is_overlap_with(&self, other: &MemoryArea) -> (r: bool)
        requires
            self.start_addr < self.end_addr,
            other.start_addr < other.end_addr,
        ensures
            r == self.spec_overlaps(*other),
    {
        let p0 = Page::of_addr(self.start_addr);
        let p1 = Page { number: Page::of_addr(self.end_addr - 1).number + 1 };
        let p2 = Page::of_addr(other.start_addr);
        let p3 = Page { number: Page::of_addr(other.end_addr - 1).number + 1 };
        !(p1.number <= p2.number || p0.number >= p3.number)
    }
}

/// Two areas sharing a page overlap.
pub proof fn lemma_shared_page_overlaps(a: MemoryArea, b: MemoryArea, p: usize)
    requires
        a.page_in(p),
        b.page_in(p),
    ensures
        a.spec_overlaps(b),
{
}

impl MemoryArea {
    /// Maps every page of the area into `pt`, low to high. A physically
    /// backed page goes to `v - start + base`; an anonymous page takes a
    /// fresh frame from `alloc`.
    pub fn map<P: PageTable, A: FrameAllocator>(&self, pt: &mut P, alloc: &mut A)
        requires
            self.map_ok(),
            forall|p: usize| #![trigger self.page_in(p)] #![trigger old(pt).table().contains_key(p)]
                self.page_in(p) ==> !old(pt).table().contains_key(p),
            self.anonymous() ==> old(alloc).avail().finite() && old(alloc).avail().len()
                >= self.page_count(),
        ensures
            forall|p: usize| #![trigger self.page_in(p)] #![trigger final(pt).table()[p]]
                self.page_in(p) ==> final(pt).table().contains_key(p)
                && self.page_entry_ok(p, final(pt).table()[p]),
            forall|p: usize| #![trigger final(pt).table().contains_key(p)] #![trigger final(pt).table()[p]]
                !self.page_in(p) ==> final(pt).table().contains_key(p)
                == old(pt).table().contains_key(p) && (old(pt).table().contains_key(p)
                ==> final(pt).table()[p] == old(pt).table()[p]),
            !self.anonymous() ==> final(alloc).avail() == old(alloc).avail()
                && final(alloc).frame_order() == old(alloc).frame_order(),
            self.anonymous() ==> {
                &&& final(alloc).avail() == old(alloc).avail().difference(
                    self.frames_in(final(pt).table()),
                )
                &&& self.frames_in(final(pt).table()).subset_of(old(alloc).avail())
                &&& final(alloc).avail().finite()
                &&& final(alloc).avail().len() == old(alloc).avail().len() - self.page_count()
                &&& forall|p: usize, q: usize| #![trigger final(pt).table()[p], final(pt).table()[q]]
                    self.page_in(p) && self.page_in(q) && p != q
                    ==> final(pt).table()[p].target != final(pt).table()[q].target
                &&& old(alloc).frame_order().len() >= self.page_count()
                &&& final(alloc).frame_order() == old(alloc).frame_order().skip(
                    self.page_count(),
                )
                &&& forall|k: int| #![trigger old(alloc).frame_order()[k]]
                    0 <= k < self.page_count() ==> final(pt).table()[((self.start_page()
                    + k) as usize)].target == old(alloc).frame_order()[k]
            },
    {
        let ghost t0 = pt.table();
        let ghost av0 = alloc.avail();
        let ghost ord0 = alloc.frame_order();
        let ghost sp = self.start_page();
        let ghost ep = self.end_page();
        let mut range = Page::range_of(self.start_addr, self.end_addr);
        while range.start.number < range.end.number
            invariant
                self.map_ok(),
                sp == self.start_page(),
                ep == self.end_page(),
                range.end.number == ep,
                sp <= range.start.number <= ep,
                range.wf(),
                forall|p: usize| #![trigger self.page_in(p)] #![trigger t0.contains_key(p)]
                    self.page_in(p) ==> !t0.contains_key(p),
                self.anonymous() ==> av0.finite() && av0.len() >= self.page_count(),
                forall|p: usize| #![trigger pt.table().contains_key(p)] #![trigger pt.table()[p]]
                    sp <= p < range.start.number ==> pt.table().contains_key(p)
                    && self.page_entry_ok(p, pt.table()[p]),
                forall|p: usize| #![trigger pt.table().contains_key(p)] #![trigger pt.table()[p]]
                    !(sp <= p < range.start.number) ==> pt.table().contains_key(p)
                    == t0.contains_key(p) && (t0.contains_key(p) ==> pt.table()[p] == t0[p]),
                !self.anonymous() ==> alloc.avail() == av0 && alloc.frame_order() == ord0,
                self.anonymous() ==> {
                    &&& alloc.avail().finite()
                    &&& alloc.avail().len() == av0.len() - (range.start.number - sp)
                    &&& range.start.number - sp <= ord0.len()
                    &&& alloc.frame_order() == ord0.skip(range.start.number - sp)
                    &&& forall|k: int| #![trigger ord0[k]] 0 <= k < range.start.number - sp
                        ==> pt.table()[((sp + k) as usize)].target == ord0[k]
                    &&& forall|f: PhysAddr| #![trigger alloc.avail().contains(f)] #![trigger av0.contains(f)]
                        alloc.avail().contains(f) <==> av0.contains(f)
                        && !(exists|p: usize| sp <= p < range.start.number
                        && #[trigger] pt.table()[p].target == f)
                    &&& forall|p: usize| #![trigger pt.table()[p]]
                        sp <= p < range.start.number ==> av0.contains(pt.table()[p].target)
                    &&& forall|p: usize, q: usize| #![trigger pt.table()[p], pt.table()[q]]
                        sp <= p < range.start.number && sp <= q < range.start.number && p != q
                        ==> pt.table()[p].target != pt.table()[q].target
                },
            decreases ep - range.start.number,
        {
            let ghost n = range.start.number;
            let ghost avprev = alloc.avail();
            let page = range.next().unwrap();
            proof {
                assert(page.number == n);
                assert(self.page_in(n));
                vstd::arithmetic::div_mod::lemma_fundamental_div_mod(
                    self.start_addr as int,
                    PAGE_SIZE as int,
                );
                vstd::arithmetic::div_mod::lemma_fundamental_div_mod(
                    (self.end_addr - 1) as int,
                    PAGE_SIZE as int,
                );
                vstd::arithmetic::div_mod::lemma_mod_multiples_basic(n as int, PAGE_SIZE as int);
                vstd::arithmetic::div_mod::lemma_div_by_multiple(n as int, PAGE_SIZE as int);
                vstd::arithmetic::mul::lemma_mul_inequality(sp, n as int, PAGE_SIZE as int);
                vstd::arithmetic::mul::lemma_mul_inequality(n as int, ep - 1, PAGE_SIZE as int);
                assert((ep - 1) * PAGE_SIZE <= self.end_addr - 1);
                assert(n * PAGE_SIZE <= self.end_addr - 1);
            }
            let addr = page.start_address();
            proof {
                assert(addr == n * PAGE_SIZE);
                assert(addr % PAGE_SIZE == 0);
                assert((addr / PAGE_SIZE) as usize == n);
            }
            let target: PhysAddr = match self.phys_start_addr {
                Some(base) => {
                    proof {
                        assert(self.start_addr == sp * PAGE_SIZE);
                        assert(addr >= self.start_addr);
                    }
                    addr - self.start_addr + base
                },
                None => {
                    let f_opt = alloc.alloc_frame();
                    proof {
                        assert(ord0.skip(n - sp).drop_first() =~= ord0.skip(n - sp + 1));
                    }
                    f_opt.unwrap()
                },
            };
            let ghost tprev = pt.table();
            proof {
                assert(!pt.table().contains_key(n));
            }
            let entry = pt.map(addr, target);
            self.flags.apply(entry);
            proof {
                assert(pt.table() == tprev.insert(n, applied(fresh_entry(target), self.flags)));
                assert(self.page_entry_ok(n, pt.table()[n]));
                if self.anonymous() {
                    assert(avprev.contains(target) && alloc.avail() == avprev.remove(target));
                    assert forall|p: usize| sp <= p < n implies !avprev.contains(
                        (#[trigger] pt.table()[p]).target,
                    ) && av0.contains(pt.table()[p].target) by {
                        assert(pt.table()[p] == tprev[p]);
                        assert(exists|pp: usize| sp <= pp < n && #[trigger] tprev[pp].target
                            == tprev[p].target);
                        assert(!avprev.contains(tprev[p].target));
                        assert(av0.contains(tprev[p].target));
                    }
                    assert forall|g: PhysAddr| #[trigger] alloc.avail().contains(g)
                        == (av0.contains(g) && !(exists|p: usize| sp <= p < range.start.number
                        && #[trigger] pt.table()[p].target == g)) by {
                        if exists|p: usize| sp <= p < n && #[trigger] tprev[p].target == g {
                            let p0 = choose|p: usize| sp <= p < n && #[trigger] tprev[p].target
                                == g;
                            assert(pt.table()[p0].target == g);
                            assert(!avprev.contains(g));
                            assert(!alloc.avail().contains(g));
                        } else if g == target {
                            assert(pt.table()[n].target == g);
                            assert(!alloc.avail().contains(g));
                            assert(av0.contains(g));
                        } else {
                            assert(alloc.avail().contains(g) == avprev.contains(g));
                            if exists|p: usize| sp <= p < range.start.number
                                && #[trigger] pt.table()[p].target == g {
                                let p1 = choose|p: usize| sp <= p < range.start.number
                                    && #[trigger] pt.table()[p].target == g;
                                assert(p1 != n);
                                assert(tprev[p1].target == g);
                                assert(false);
                            }
                        }
                    }
                }
            }
        }
        proof {
            if self.anonymous() {
                assert forall|g: PhysAddr| #[trigger] alloc.avail().contains(g)
                    == av0.difference(self.frames_in(pt.table())).contains(g) by {
                    if exists|p: usize| sp <= p < ep && #[trigger] pt.table()[p].target == g {
                        let p0 = choose|p: usize| sp <= p < ep && #[trigger] pt.table()[p].target
                            == g;
                        assert(self.page_in(p0));
                        assert(pt.table().contains_key(p0));
                        assert(self.frames_in(pt.table()).contains(g));
                        assert(!alloc.avail().contains(g));
                    } else {
                        if exists|p: usize|
                            self.page_in(p) && pt.table().contains_key(p)
                            && #[trigger] pt.table()[p].target == g {
                            let p1 = choose|p: usize|
                                self.page_in(p) && pt.table().contains_key(p)
                                && #[trigger] pt.table()[p].target == g;
                            assert(sp <= p1 < ep && pt.table()[p1].target == g);
                            assert(false);
                        }
                        assert(!self.frames_in(pt.table()).contains(g));
                    }
                }
                assert(alloc.avail() =~= av0.difference(self.frames_in(pt.table())));
                assert forall|g: PhysAddr| self.frames_in(pt.table()).contains(g)
                    implies av0.contains(g) by {
                    let p0 = choose|p: usize|
                        self.page_in(p) && pt.table().contains_key(p)
                        && #[trigger] pt.table()[p].target == g;
                    assert(sp <= p0 < ep);
                    assert(av0.contains(pt.table()[p0].target));
                }
                assert(self.frames_in(pt.table()).subset_of(av0));
            }
        }
    }

    /// Unmaps every page of the area from `pt`; the frame behind each
    /// anonymous page is returned to `alloc` first.
    pub fn unmap<P: PageTable, A: FrameAllocator>(&self, pt: &mut P, alloc: &mut A)
        requires
            self.start_addr < self.end_addr,
            forall|p: usize| #![trigger self.page_in(p)] #![trigger old(pt).table().contains_key(p)]
                self.page_in(p) ==> old(pt).table().contains_key(p),
            self.anonymous() ==> forall|p: usize| #![trigger old(pt).table()[p]]
                self.page_in(p) ==> !old(alloc).avail().contains(old(pt).table()[p].target),
            self.anonymous() ==> forall|p: usize, q: usize|
                #![trigger old(pt).table()[p], old(pt).table()[q]]
                self.page_in(p) && self.page_in(q) && p != q
                ==> old(pt).table()[p].target != old(pt).table()[q].target,
        ensures
            forall|p: usize| #![trigger self.page_in(p)] #![trigger final(pt).table().contains_key(p)]
                self.page_in(p) ==> !final(pt).table().contains_key(p),
            forall|p: usize| #![trigger final(pt).table().contains_key(p)] #![trigger final(pt).table()[p]]
                !self.page_in(p) ==> final(pt).table().contains_key(p)
                == old(pt).table().contains_key(p) && (old(pt).table().contains_key(p)
                ==> final(pt).table()[p] == old(pt).table()[p]),
            !self.anonymous() ==> final(alloc).avail() == old(alloc).avail(),
            self.anonymous() ==> final(alloc).avail() == old(alloc).avail().union(
                self.frames_in(old(pt).table()),
            ),
            old(alloc).avail().finite() ==> final(alloc).avail().finite(),
    {
        let ghost t0 = pt.table();
        let ghost av0 = alloc.avail();
        let ghost sp = self.start_page();
        let ghost ep = self.end_page();
        let mut range = Page::range_of(self.start_addr, self.end_addr);
        while range.start.number < range.end.number
            invariant
                self.start_addr < self.end_addr,
                sp == self.start_page(),
                ep == self.end_page(),
                range.end.number == ep,
                sp <= range.start.number <= ep,
                range.wf(),
                forall|p: usize| #![trigger self.page_in(p)] #![trigger t0.contains_key(p)]
                    self.page_in(p) ==> t0.contains_key(p),
                self.anonymous() ==> forall|p: usize| #![trigger t0[p]]
                    self.page_in(p) ==> !av0.contains(t0[p].target),
                self.anonymous() ==> forall|p: usize, q: usize| #![trigger t0[p], t0[q]]
                    self.page_in(p) && self.page_in(q) && p != q
                    ==> t0[p].target != t0[q].target,
                forall|p: usize| #![trigger pt.table().contains_key(p)]
                    sp <= p < range.start.number ==> !pt.table().contains_key(p),
                forall|p: usize| #![trigger pt.table().contains_key(p)] #![trigger pt.table()[p]]
                    !(sp <= p < range.start.number) ==> pt.table().contains_key(p)
                    == t0.contains_key(p) && (t0.contains_key(p) ==> pt.table()[p] == t0[p]),
                !self.anonymous() ==> alloc.avail() == av0,
                self.anonymous() ==> forall|f: PhysAddr|
                    #![trigger alloc.avail().contains(f)] #![trigger av0.contains(f)]
                    alloc.avail().contains(f) <==> av0.contains(f)
                    || (exists|p: usize| sp <= p < range.start.number
                    && #[trigger] t0[p].target == f),
                av0.finite() ==> alloc.avail().finite(),
            decreases ep - range.start.number,
        {
            let ghost n = range.start.number;
            let page = range.next().unwrap();
            proof {
                assert(page.number == n);
                assert(self.page_in(n));
                vstd::arithmetic::div_mod::lemma_fundamental_div_mod(
                    (self.end_addr - 1) as int,
                    PAGE_SIZE as int,
                );
                vstd::arithmetic::div_mod::lemma_mod_multiples_basic(n as int, PAGE_SIZE as int);
                vstd::arithmetic::div_mod::lemma_div_by_multiple(n as int, PAGE_SIZE as int);
                vstd::arithmetic::mul::lemma_mul_inequality(n as int, ep - 1, PAGE_SIZE as int);
                assert((ep - 1) * PAGE_SIZE <= self.end_addr - 1);
            }
            let addr = page.start_address();
            proof {
                assert(addr == n * PAGE_SIZE);
                assert(addr % PAGE_SIZE == 0);
                assert((addr / PAGE_SIZE) as usize == n);
                assert(pt.table().contains_key(n));
            }
            if self.phys_start_addr.is_none() {
                let ghost tb = pt.table();
                let entry = pt.get_entry(addr);
                let target = entry.target();
                proof {
                    assert(pt.table() =~= tb);
                    assert(target == t0[n].target);
                }
                alloc.dealloc_frame(target);
            }
            pt.unmap(addr);
        }
        proof {
            if self.anonymous() {
                assert forall|g: PhysAddr| #[trigger] alloc.avail().contains(g)
                    == av0.union(self.frames_in(t0)).contains(g) by {
                    if exists|p: usize| sp <= p < ep && #[trigger] t0[p].target == g {
                        let p0 = choose|p: usize| sp <= p < ep && #[trigger] t0[p].target == g;
                        assert(self.page_in(p0));
                        assert(t0.contains_key(p0));
                        assert(self.frames_in(t0).contains(g));
                        assert(alloc.avail().contains(g));
                    } else {
                        if exists|p: usize|
                            self.page_in(p) && t0.contains_key(p) && #[trigger] t0[p].target
                            == g {
                            let p1 = choose|p: usize|
                                self.page_in(p) && t0.contains_key(p) && #[trigger] t0[p].target
                                == g;
                            assert(sp <= p1 < ep && t0[p1].target == g);
                            assert(false);
                        }
                        assert(!self.frames_in(t0).contains(g));
                    }
                }
                assert(alloc.avail() =~= av0.union(self.frames_in(t0)));
            }
        }
    }
}

/// A kernel stack, allocated and freed by the external stack allocator.
#[derive(Debug, Copy, Clone)]
pub struct Stack {
    pub top: usize,
    pub bottom: usize,
}

/// An inactive page table: a full hierarchy rooted in a distinct frame that
/// is not currently installed in the MMU. `table` is its user-region
/// content; kernel-space and recursive mappings are below this model.
pub trait InactivePageTable: Sized {
    /// The active, editable view of the same hierarchy.
    type Active: PageTable;

    /// Page number -> entry content of the user region.
    spec fn table(&self) -> Map<usize, EntryData>;

    /// The frame the hierarchy is rooted in; also the activation token.
    spec fn root_frame(&self) -> PhysAddr;

    /// A fresh table rooted at `root`, with recursive mapping set and
    /// kernel space mapped in; its user region is empty.
    fn new(root: PhysAddr) -> (r: Self)
        ensures
            r.table() == Map::<usize, EntryData>::empty(),
            r.root_frame() == root,
    ;

    /// A fresh table rooted at `root` with the recursive mapping only;
    /// for early bootstrap, before the heap exists.
    fn new_bare(root: PhysAddr) -> (r: Self)
        ensures
            r.table() == Map::<usize, EntryData>::empty(),
            r.root_frame() == root,
    ;

    /// Opens the table for editing, as if it were active, without
    /// installing it; `end_edit` closes the session and commits.
    fn begin_edit(&mut self) -> (pt: Self::Active)
        ensures
            pt.table() == old(self).table(),
            final(self).root_frame() == old(self).root_frame(),
    ;

    /// Commits an edit session: the hierarchy now holds the edited content.
    fn end_edit(&mut self, pt: Self::Active)
        ensures
            final(self).table() == pt.table(),
            final(self).root_frame() == old(self).root_frame(),
    ;

    /// Installs the table as the MMU's current one. The MMU itself is
    /// outside this model, so nothing is stated here.
    fn activate(&self);

    /// The architectural value that installs this table when loaded.
    fn token(&self) -> (r: usize)
        ensures
            r == self.root_frame(),
    ;

    /// Allocates a kernel stack.
    fn alloc_stack() -> (r: Stack)
        ensures
            r.bottom <= r.top,
    ;
}

/// Everything memory-related a thread needs: non-overlapping areas, an
/// owned inactive page table in which exactly those areas are mapped, and
/// a kernel stack.
pub struct MemorySet<T: InactivePageTable> {
    pub areas: Vec<MemoryArea>,
    pub page_table: T,
    pub kstack: Stack,
}

impl<T: InactivePageTable> MemorySet<T> {
    /// The page-table content.
    pub open spec fn table(self) -> Map<usize, EntryData> {
        self.page_table.table()
    }

    /// Whether some area covers page `p`.
    pub open spec fn covers(self, p: usize) -> bool {
        exists|i: int| 0 <= i < self.areas@.len() && (#[trigger] self.areas@[i]).page_in(p)
    }

    /// Whether some anonymous area covers page `p`.
    pub open spec fn anon_page(self, p: usize) -> bool {
        exists|i: int| 0 <= i < self.areas@.len() && (#[trigger] self.areas@[i]).anonymous()
            && self.areas@[i].page_in(p)
    }

    /// The frames backing anonymous pages.
    pub open spec fn anon_frames(self) -> Set<PhysAddr> {
        Set::new(|f: PhysAddr| exists|p: usize| #[trigger] self.anon_page(p) && self.table()[p].target == f)
    }

    /// The address-space invariant: every area can be mapped, no two areas
    /// overlap, the table maps exactly the areas' pages with the entries
    /// the areas prescribe, and anonymous frames are exclusively owned:
    /// pairwise distinct and distinct from the table's root frame.
    pub open spec fn inv(self) -> bool {
        &&& forall|i: int| 0 <= i < self.areas@.len() ==> (#[trigger] self.areas@[i]).map_ok()
        &&& forall|i: int, j: int| #![trigger self.areas@[i].spec_overlaps(self.areas@[j])]
            0 <= i < self.areas@.len() && 0 <= j < self.areas@.len() && i != j
            ==> !self.areas@[i].spec_overlaps(self.areas@[j])
        &&& forall|p: usize| #![trigger self.table().contains_key(p)]
            self.table().contains_key(p) <==> self.covers(p)
        &&& forall|i: int, p: usize| #![trigger self.areas@[i].page_in(p)]
            0 <= i < self.areas@.len() && self.areas@[i].page_in(p)
            ==> self.table().contains_key(p) && self.areas@[i].page_entry_ok(p, self.table()[p])
        &&& forall|p: usize, q: usize| #![trigger self.anon_page(p), self.anon_page(q)]
            self.anon_page(p) && self.anon_page(q) && p != q
            ==> self.table()[p].target != self.table()[q].target
        &&& forall|p: usize| #[trigger] self.anon_page(p)
            ==> self.table()[p].target != self.page_table.root_frame()
    }

    /// The space's frames are not available for allocation: neither the
    /// anonymous backing frames nor the table's root frame.
    pub open spec fn frames_disjoint(self, avail: Set<PhysAddr>) -> bool {
        &&& forall|p: usize| #[trigger] self.anon_page(p) ==> !avail.contains(
            self.table()[p].target,
        )
        &&& !avail.contains(self.page_table.root_frame())
    }

    /// A fresh, empty address space: a new fully featured page table (its
    /// root frame drawn from `alloc`) and a kernel stack.
    pub fn new<A: FrameAllocator>(alloc: &mut A) -> (r: Self)
        requires
            old(alloc).avail().finite(),
            old(alloc).avail().len() >= 1,
        ensures
            r.inv(),
            r.areas@.len() == 0,
            r.table() == Map::<usize, EntryData>::empty(),
            old(alloc).avail().contains(r.page_table.root_frame()),
            final(alloc).avail() == old(alloc).avail().remove(r.page_table.root_frame()),
            final(alloc).avail().finite(),
            r.frames_disjoint(final(alloc).avail()),
    {
        let f_opt = alloc.alloc_frame();
        let root = f_opt.unwrap();
        let page_table = T::new(root);
        let kstack = T::alloc_stack();
        let r = MemorySet { areas: Vec::new(), page_table, kstack };
        proof {
            assert forall|p: usize| !(#[trigger] r.table().contains_key(p)) by {}
            assert(r.inv());
        }
        r
    }

    /// The area containing `addr`, if any. By the invariant at most one
    /// area matches.
    pub fn find_area(&self, addr: VirtAddr) -> (r: Option<&MemoryArea>)
        ensures
            match r {
                Some(a) => (exists|i: int| 0 <= i < self.areas@.len()
                    && *a == #[trigger] self.areas@[i]) && a.start_addr <= addr < a.end_addr,
                None => forall|i: int| 0 <= i < self.areas@.len()
                    ==> !((#[trigger] self.areas@[i]).start_addr <= addr
                    < self.areas@[i].end_addr),
            },
    {
        let mut i: usize = 0;
        while i < self.areas.len()
            invariant
                i <= self.areas@.len(),
                forall|j: int| 0 <= j < i ==> !((#[trigger] self.areas@[j]).start_addr <= addr
                    < self.areas@[j].end_addr),
            decreases self.areas@.len() - i,
        {
            if self.areas[i].contains(addr) {
                return Some(&self.areas[i]);
            }
            i += 1;
        }
        None
    }

    /// The areas, in insertion order.
    pub fn areas(&self) -> (r: &Vec<MemoryArea>)
        ensures
            r == &self.areas,
    {
        &self.areas
    }

    /// Installs the space's page table; see `InactivePageTable::activate`.
    pub fn activate(&self) {
        self.page_table.activate();
    }

    /// The architectural token of the space's page table.
    pub fn token(&self) -> (r: usize)
        ensures
            r == self.page_table.root_frame(),
    {
        self.page_table.token()
    }

    /// The address of the kernel stack's top.
    pub fn kstack_top(&self) -> (r: usize)
        ensures
            r == self.kstack.top,
    {
        self.kstack.top
    }
}

impl<T: InactivePageTable> MemorySet<T> {
    /// Adds an area and maps it. The caller guarantees that the area
    /// overlaps no existing one and that the allocator can back it; a
    /// kernel treats a violation as fatal.
    pub fn push<A: FrameAllocator>(&mut self, area: MemoryArea, alloc: &mut A)
        requires
            old(self).inv(),
            old(self).frames_disjoint(old(alloc).avail()),
            old(alloc).avail().finite(),
            area.map_ok(),
            forall|i: int| 0 <= i < old(self).areas@.len() ==> !area.spec_overlaps(
                #[trigger] old(self).areas@[i],
            ),
            area.anonymous() ==> old(alloc).avail().len() >= area.page_count(),
        ensures
            final(self).inv(),
            final(self).areas@ == old(self).areas@.push(area),
            final(self).page_table.root_frame() == old(self).page_table.root_frame(),
            final(self).kstack == old(self).kstack,
            final(self).frames_disjoint(final(alloc).avail()),
            final(alloc).avail().finite(),
            final(alloc).avail().subset_of(old(alloc).avail()),
            forall|p: usize| #![trigger final(self).table()[p]] #![trigger old(self).table()[p]]
                old(self).table().contains_key(p) ==> final(self).table().contains_key(p)
                && final(self).table()[p] == old(self).table()[p],
            forall|p: usize| #[trigger] area.page_in(p) ==> final(self).table().contains_key(p)
                && area.page_entry_ok(p, final(self).table()[p]),
            !area.anonymous() ==> final(alloc).avail() == old(alloc).avail()
                && final(alloc).frame_order() == old(alloc).frame_order(),
            area.anonymous() ==> {
                &&& final(alloc).avail() == old(alloc).avail().difference(
                    area.frames_in(final(self).table()),
                )
                &&& area.frames_in(final(self).table()).subset_of(old(alloc).avail())
                &&& final(alloc).avail().len() == old(alloc).avail().len() - area.page_count()
                &&& old(alloc).frame_order().len() >= area.page_count()
                &&& final(alloc).frame_order() == old(alloc).frame_order().skip(
                    area.page_count(),
                )
                &&& forall|k: int| #![trigger old(alloc).frame_order()[k]]
                    0 <= k < area.page_count() ==> final(self).table()[((area.start_page()
                    + k) as usize)].target == old(alloc).frame_order()[k]
            },
            final(self).anon_frames() == old(self).anon_frames().union(
                if area.anonymous() {
                    area.frames_in(final(self).table())
                } else {
                    Set::<PhysAddr>::empty()
                },
            ),
    {
        let ghost s0 = *self;
        let ghost t0 = self.page_table.table();
        let ghost av0 = alloc.avail();
        let mut pt = self.page_table.begin_edit();
        proof {
            assert forall|p: usize| #[trigger] area.page_in(p)
                implies !pt.table().contains_key(p) by {
                if pt.table().contains_key(p) {
                    assert(s0.table().contains_key(p));
                    assert(s0.covers(p));
                    let i = choose|i: int| 0 <= i < s0.areas@.len()
                        && (#[trigger] s0.areas@[i]).page_in(p);
                    lemma_shared_page_overlaps(area, s0.areas@[i], p);
                    assert(false);
                }
            }
        }
        area.map(&mut pt, alloc);
        let ghost t1g = pt.table();
        self.page_table.end_edit(pt);
        self.areas.push(area);
        proof {
            let s1 = *self;
            let t1 = self.page_table.table();
            let a1 = self.areas@;
            assert(t0 == s0.table());
            assert(t1 == t1g);
            assert(a1 == s0.areas@.push(area));
            assert(a1[a1.len() - 1] == area);
            // Pages of old areas are untouched: they cannot lie in the new
            // area's range.
            assert forall|i: int, p: usize| #![trigger s0.areas@[i].page_in(p)]
                0 <= i < s0.areas@.len() && s0.areas@[i].page_in(p)
                implies !area.page_in(p) && t1.contains_key(p) && t1[p] == t0[p] by {
                if area.page_in(p) {
                    lemma_shared_page_overlaps(area, s0.areas@[i], p);
                    assert(false);
                }
                assert(t0.contains_key(p));
            }
            // Domain of the new table.
            assert forall|p: usize| #[trigger] t1.contains_key(p) implies s1.covers(p) by {
                if area.page_in(p) {
                    assert(a1[a1.len() - 1].page_in(p));
                } else {
                    assert(t0.contains_key(p));
                    assert(s0.covers(p));
                    let i = choose|i: int| 0 <= i < s0.areas@.len()
                        && (#[trigger] s0.areas@[i]).page_in(p);
                    assert(a1[i] == s0.areas@[i]);
                    assert(a1[i].page_in(p));
                }
            }
            assert forall|p: usize| s1.covers(p) implies t1.contains_key(p) by {
                let i = choose|i: int| 0 <= i < a1.len() && (#[trigger] a1[i]).page_in(p);
                if i < s0.areas@.len() {
                    assert(s0.areas@[i].page_in(p));
                } else {
                    assert(area.page_in(p));
                }
            }
            // Anonymous pages of the new set.
            assert forall|p: usize| #[trigger] s1.anon_page(p)
                implies s0.anon_page(p) || (area.anonymous() && area.page_in(p)) by {
                let i = choose|i: int| 0 <= i < a1.len() && (#[trigger] a1[i]).anonymous()
                    && a1[i].page_in(p);
                if i < s0.areas@.len() {
                    assert(s0.areas@[i].anonymous() && s0.areas@[i].page_in(p));
                }
            }
            assert forall|p: usize| s0.anon_page(p) implies s1.anon_page(p)
                && t1[p] == t0[p] by {
                let i = choose|i: int| 0 <= i < s0.areas@.len()
                    && (#[trigger] s0.areas@[i]).anonymous() && s0.areas@[i].page_in(p);
                assert((a1[i]).anonymous() && a1[i].page_in(p));
                assert(s0.areas@[i].page_in(p));
            }
            assert forall|p: usize| area.anonymous() && area.page_in(p)
                implies #[trigger] s1.anon_page(p) by {
                assert((a1[a1.len() - 1]).anonymous() && a1[a1.len() - 1].page_in(p));
            }
            // Old anonymous targets sit outside the old availability set;
            // new ones were drawn from it.
            assert forall|p: usize| #[trigger] s0.anon_page(p)
                implies !av0.contains(t0[p].target) by {}
            assert forall|p: usize| area.anonymous() && #[trigger] area.page_in(p)
                implies av0.contains(t1[p].target) && !alloc.avail().contains(t1[p].target) by {
                assert(t1.contains_key(p) && t1[p].target == t1[p].target);
                assert(area.frames_in(t1).contains(t1[p].target));
            }
            assert(s1.inv());
            assert(s1.frames_disjoint(alloc.avail()));
            // Frame bookkeeping for the whole set.
            assert forall|g: PhysAddr| #[trigger] s1.anon_frames().contains(g)
                == s0.anon_frames().union(
                if area.anonymous() {
                    area.frames_in(t1)
                } else {
                    Set::<PhysAddr>::empty()
                },
            ).contains(g) by {
                if s1.anon_frames().contains(g) {
                    let p = choose|p: usize| #[trigger] s1.anon_page(p) && s1.table()[p].target
                        == g;
                    if s0.anon_page(p) {
                        assert(s0.anon_frames().contains(g));
                    } else {
                        assert(area.anonymous() && area.page_in(p));
                        assert(area.frames_in(t1).contains(g));
                    }
                }
                if s0.anon_frames().contains(g) {
                    let p = choose|p: usize| #[trigger] s0.anon_page(p) && s0.table()[p].target
                        == g;
                    assert(s1.anon_page(p) && s1.table()[p].target == g);
                    assert(s1.anon_frames().contains(g));
                }
                if area.anonymous() && area.frames_in(t1).contains(g) {
                    let p = choose|p: usize| area.page_in(p) && t1.contains_key(p)
                        && #[trigger] t1[p].target == g;
                    assert(s1.anon_page(p) && s1.table()[p].target == g);
                    assert(s1.anon_frames().contains(g));
                }
            }
            assert(s1.anon_frames() =~= s0.anon_frames().union(
                if area.anonymous() {
                    area.frames_in(t1)
                } else {
                    Set::<PhysAddr>::empty()
                },
            ));
        }
    }
}

impl<T: InactivePageTable> MemorySet<T> {
    /// Unmaps every area in insertion order and empties the area list.
    /// Every anonymous backing frame goes back to the allocator; the page
    /// table itself (and its root frame) stays with the space.
    pub fn clear<A: FrameAllocator>(&mut self, alloc: &mut A)
        requires
            old(self).inv(),
            old(self).frames_disjoint(old(alloc).avail()),
            old(alloc).avail().finite(),
        ensures
            final(self).inv(),
            final(self).areas@.len() == 0,
            final(self).table() == Map::<usize, EntryData>::empty(),
            final(self).page_table.root_frame() == old(self).page_table.root_frame(),
            final(self).kstack == old(self).kstack,
            final(alloc).avail() == old(alloc).avail().union(old(self).anon_frames()),
            final(alloc).avail().finite(),
            final(self).frames_disjoint(final(alloc).avail()),
    {
        let ghost s0 = *self;
        let ghost t0 = self.page_table.table();
        let ghost av0 = alloc.avail();
        let mut pt = self.page_table.begin_edit();
        let mut i: usize = 0;
        while i < self.areas.len()
            invariant
                i <= self.areas@.len(),
                s0.inv(),
                s0.frames_disjoint(av0),
                av0.finite(),
                t0 == s0.table(),
                self.areas@ == s0.areas@,
                forall|p: usize| #![trigger pt.table().contains_key(p)]
                    pt.table().contains_key(p) <==> t0.contains_key(p) && !(exists|j: int|
                    0 <= j < i && (#[trigger] s0.areas@[j]).page_in(p)),
                forall|p: usize| #![trigger pt.table()[p]]
                    pt.table().contains_key(p) ==> pt.table()[p] == t0[p],
                forall|f: PhysAddr| #![trigger alloc.avail().contains(f)] #![trigger av0.contains(f)]
                    alloc.avail().contains(f) <==> av0.contains(f) || (exists|j: int, p: usize|
                    0 <= j < i && s0.areas@[j].anonymous()
                    && #[trigger] s0.areas@[j].page_in(p) && t0[p].target == f),
                alloc.avail().finite(),
            decreases self.areas@.len() - i,
        {
            let area = self.areas[i];
            proof {
                assert(area == s0.areas@[i as int]);
                assert(area.map_ok());
                assert forall|p: usize| #[trigger] area.page_in(p)
                    implies pt.table().contains_key(p) && pt.table()[p] == t0[p] by {
                    assert(s0.areas@[i as int].page_in(p));
                    assert(t0.contains_key(p));
                    if exists|j: int| 0 <= j < i && (#[trigger] s0.areas@[j]).page_in(p) {
                        let j = choose|j: int| 0 <= j < i && (#[trigger] s0.areas@[j]).page_in(p);
                        lemma_shared_page_overlaps(s0.areas@[j], s0.areas@[i as int], p);
                        assert(false);
                    }
                }
                if area.anonymous() {
                    assert forall|p: usize| #[trigger] area.page_in(p)
                        implies !alloc.avail().contains(pt.table()[p].target) by {
                        assert(s0.areas@[i as int].page_in(p));
                        assert(s0.anon_page(p));
                        assert(pt.table()[p] == t0[p]);
                        assert(!av0.contains(t0[p].target));
                        if exists|j: int, q: usize| 0 <= j < i
                            && s0.areas@[j].anonymous() && #[trigger] s0.areas@[j].page_in(q)
                            && t0[q].target == t0[p].target {
                            let (j, q) = choose|j: int, q: usize| 0 <= j < i
                                && s0.areas@[j].anonymous()
                                && #[trigger] s0.areas@[j].page_in(q) && t0[q].target == t0[p].target;
                            assert(s0.anon_page(q));
                            if p == q {
                                lemma_shared_page_overlaps(
                                    s0.areas@[j],
                                    s0.areas@[i as int],
                                    p,
                                );
                                assert(false);
                            }
                            assert(s0.table()[p].target != s0.table()[q].target);
                            assert(false);
                        }
                    }
                    assert forall|p: usize, q: usize| area.page_in(p) && area.page_in(q)
                        && p != q implies (#[trigger] pt.table()[p]).target
                        != (#[trigger] pt.table()[q]).target by {
                        assert(s0.areas@[i as int].page_in(p) && s0.areas@[i as int].page_in(q));
                        assert(s0.anon_page(p) && s0.anon_page(q));
                        assert(pt.table()[p] == t0[p] && pt.table()[q] == t0[q]);
                    }
                }
            }
            let ghost avb = alloc.avail();
            let ghost tb = pt.table();
            area.unmap(&mut pt, alloc);
            proof {
                assert forall|p: usize| #[trigger] pt.table().contains_key(p)
                    == (t0.contains_key(p) && !(exists|j: int| 0 <= j < i + 1
                    && (#[trigger] s0.areas@[j]).page_in(p))) by {
                    if area.page_in(p) {
                        assert(s0.areas@[i as int].page_in(p));
                        assert(!pt.table().contains_key(p));
                    } else {
                        assert(pt.table().contains_key(p) == tb.contains_key(p));
                        if exists|j: int| 0 <= j < i + 1 && (#[trigger] s0.areas@[j]).page_in(p) {
                            let j = choose|j: int| 0 <= j < i + 1
                                && (#[trigger] s0.areas@[j]).page_in(p);
                            assert(j != i);
                            assert(0 <= j < i && s0.areas@[j].page_in(p));
                        }
                        if exists|j: int| 0 <= j < i && (#[trigger] s0.areas@[j]).page_in(p) {
                            let j = choose|j: int| 0 <= j < i
                                && (#[trigger] s0.areas@[j]).page_in(p);
                            assert(0 <= j < i + 1 && s0.areas@[j].page_in(p));
                        }
                    }
                }
                assert forall|f: PhysAddr| #[trigger] alloc.avail().contains(f)
                    == (av0.contains(f) || (exists|j: int, p: usize| 0 <= j < i + 1
                    && s0.areas@[j].anonymous() && #[trigger] s0.areas@[j].page_in(p)
                    && t0[p].target == f)) by {
                    if area.anonymous() {
                        assert(alloc.avail() == avb.union(area.frames_in(tb)));
                        if area.frames_in(tb).contains(f) {
                            let p = choose|p: usize| area.page_in(p) && tb.contains_key(p)
                                && #[trigger] tb[p].target == f;
                            assert(tb[p] == t0[p]);
                            assert(s0.areas@[i as int].anonymous()
                                && s0.areas@[i as int].page_in(p) && t0[p].target == f);
                        }
                    } else {
                        assert(alloc.avail() == avb);
                    }
                    if exists|j: int, p: usize| 0 <= j < i + 1
                        && s0.areas@[j].anonymous() && #[trigger] s0.areas@[j].page_in(p)
                        && t0[p].target == f {
                        let (j, p) = choose|j: int, p: usize| 0 <= j < i + 1
                            && s0.areas@[j].anonymous() && #[trigger] s0.areas@[j].page_in(p)
                            && t0[p].target == f;
                        if j < i {
                            assert(avb.contains(f));
                            assert(alloc.avail().contains(f));
                        } else {
                            assert(area.anonymous() && area.page_in(p));
                            assert(tb.contains_key(p) && tb[p] == t0[p]);
                            assert(area.frames_in(tb).contains(f));
                            assert(alloc.avail().contains(f));
                        }
                    }
                    if alloc.avail().contains(f) && !av0.contains(f) {
                        if avb.contains(f) {
                            let (j, p) = choose|j: int, p: usize| 0 <= j < i
                                && s0.areas@[j].anonymous()
                                && #[trigger] s0.areas@[j].page_in(p) && t0[p].target == f;
                            assert(0 <= j < i + 1 && s0.areas@[j].anonymous()
                                && s0.areas@[j].page_in(p) && t0[p].target == f);
                        }
                    }
                }
            }
            i += 1;
        }
        let ghost t1g = pt.table();
        self.page_table.end_edit(pt);
        self.areas.clear();
        proof {
            let s1 = *self;
            assert(s1.table() == t1g);
            assert forall|p: usize| !(#[trigger] s1.table().contains_key(p)) by {
                if t1g.contains_key(p) {
                    assert(t0.contains_key(p));
                    assert(s0.covers(p));
                    let j = choose|j: int| 0 <= j < s0.areas@.len()
                        && (#[trigger] s0.areas@[j]).page_in(p);
                    assert(false);
                }
            }
            assert(s1.table() =~= Map::<usize, EntryData>::empty());
            assert(s1.inv());
            assert forall|f: PhysAddr| #[trigger] alloc.avail().contains(f)
                == av0.union(s0.anon_frames()).contains(f) by {
                if s0.anon_frames().contains(f) {
                    let p = choose|p: usize| #[trigger] s0.anon_page(p)
                        && s0.table()[p].target == f;
                    let j = choose|j: int| 0 <= j < s0.areas@.len()
                        && s0.areas@[j].anonymous() && #[trigger] s0.areas@[j].page_in(p);
                    assert(0 <= j < s0.areas@.len() && s0.areas@[j].anonymous()
                        && s0.areas@[j].page_in(p) && t0[p].target == f);
                    assert(alloc.avail().contains(f));
                }
                if alloc.avail().contains(f) && !av0.contains(f) {
                    let (j, p) = choose|j: int, p: usize| 0 <= j < s0.areas@.len()
                        && s0.areas@[j].anonymous() && #[trigger] s0.areas@[j].page_in(p)
                        && t0[p].target == f;
                    assert(s0.anon_page(p));
                    assert(s0.anon_frames().contains(f));
                }
            }
            assert(alloc.avail() =~= av0.union(s0.anon_frames()));
            assert forall|f: PhysAddr| s0.anon_frames().contains(f)
                implies f != s0.page_table.root_frame() by {
                let p = choose|p: usize| #[trigger] s0.anon_page(p) && s0.table()[p].target == f;
            }
            assert(s1.frames_disjoint(alloc.avail()));
        }
    }

    /// Tears the space down: unmaps and frees everything `clear` frees,
    /// then returns the page table's root frame as well.
    pub fn dispose<A: FrameAllocator>(self, alloc: &mut A)
        requires
            self.inv(),
            self.frames_disjoint(old(alloc).avail()),
            old(alloc).avail().finite(),
        ensures
            final(alloc).avail() == old(alloc).avail().union(self.anon_frames()).insert(
                self.page_table.root_frame(),
            ),
            final(alloc).avail().finite(),
    {
        let mut s = self;
        s.clear(alloc);
        let root = s.page_table.token();
        alloc.dealloc_frame(root);
    }
}

/// Total page count of the anonymous areas in `areas`.
pub open spec fn anon_page_total(areas: Seq<MemoryArea>) -> int
    decreases areas.len(),
{
    if areas.len() == 0 {
        0
    } else {
        (if areas[0].anonymous() {
            areas[0].page_count()
        } else {
            0
        }) + anon_page_total(areas.drop_first())
    }
}

/// Every area that can be mapped covers at least one page, so the total is
/// never negative.
pub proof fn lemma_anon_total_nonneg(areas: Seq<MemoryArea>)
    requires
        forall|k: int| 0 <= k < areas.len() ==> (#[trigger] areas[k]).map_ok(),
    ensures
        anon_page_total(areas) >= 0,
    decreases areas.len(),
{
    if areas.len() > 0 {
        assert(areas[0].map_ok());
        vstd::arithmetic::div_mod::lemma_div_is_ordered(
            areas[0].start_addr as int,
            (areas[0].end_addr - 1) as int,
            PAGE_SIZE as int,
        );
        assert forall|k: int| 0 <= k < areas.drop_first().len()
            implies (#[trigger] areas.drop_first()[k]).map_ok() by {
            assert(areas.drop_first()[k] == areas[k + 1]);
        }
        lemma_anon_total_nonneg(areas.drop_first());
    }
}

impl<T: InactivePageTable> MemorySet<T> {
    /// A structural deep copy: a fresh page table with the same areas
    /// re-mapped (each anonymous page backed by a fresh, uninitialized
    /// frame) and a fresh kernel stack. Area contents are not copied.
    pub fn duplicate<A: FrameAllocator>(&self, alloc: &mut A) -> (r: Self)
        requires
            self.inv(),
            self.frames_disjoint(old(alloc).avail()),
            old(alloc).avail().finite(),
            old(alloc).avail().len() >= 1 + anon_page_total(self.areas@),
        ensures
            r.inv(),
            r.areas@ == self.areas@,
            r.page_table.root_frame() != self.page_table.root_frame(),
            old(alloc).avail().contains(r.page_table.root_frame()),
            final(alloc).avail().finite(),
            final(alloc).avail().subset_of(old(alloc).avail()),
            r.frames_disjoint(final(alloc).avail()),
            self.frames_disjoint(final(alloc).avail()),
            r.anon_frames().disjoint(self.anon_frames()),
    {
        let ghost a = self.areas@;
        let ghost av0 = alloc.avail();
        proof {
            lemma_anon_total_nonneg(a);
        }
        let f_opt = alloc.alloc_frame();
        let root = f_opt.unwrap();
        let ghost av1 = alloc.avail();
        let mut table = T::new(root);
        let mut pt = table.begin_edit();
        let mut v: Vec<MemoryArea> = Vec::new();
        let mut i: usize = 0;
        proof {
            assert(a.skip(0) =~= a);
        }
        while i < self.areas.len()
            invariant
                i <= a.len(),
                self.inv(),
                self.areas@ == a,
                self.frames_disjoint(av0),
                av0.finite(),
                av1 == av0.remove(root),
                av0.contains(root),
                v@ == a.take(i as int),
                table.root_frame() == root,
                forall|j: int, p: usize| #![trigger a[j].page_in(p)]
                    0 <= j < i && a[j].page_in(p) ==> pt.table().contains_key(p)
                    && a[j].page_entry_ok(p, pt.table()[p]),
                forall|p: usize| #[trigger] pt.table().contains_key(p) ==> exists|j: int|
                    0 <= j < i && (#[trigger] a[j]).page_in(p),
                alloc.avail().finite(),
                alloc.avail().subset_of(av1),
                alloc.avail().len() >= anon_page_total(a.skip(i as int)),
                forall|j: int, p: usize| #![trigger a[j].page_in(p)]
                    0 <= j < i && a[j].anonymous() && a[j].page_in(p) ==> av1.contains(
                    pt.table()[p].target) && !alloc.avail().contains(pt.table()[p].target),
                forall|j1: int, p: usize, j2: int, q: usize|
                    #![trigger a[j1].page_in(p), a[j2].page_in(q)]
                    0 <= j1 < i && 0 <= j2 < i && a[j1].anonymous() && a[j2].anonymous()
                    && a[j1].page_in(p) && a[j2].page_in(q) && p != q
                    ==> pt.table()[p].target != pt.table()[q].target,
            decreases a.len() - i,
        {
            let area = self.areas[i];
            proof {
                assert(area == a[i as int]);
                assert(area.map_ok());
                assert forall|p: usize| #[trigger] area.page_in(p)
                    implies !pt.table().contains_key(p) by {
                    if pt.table().contains_key(p) {
                        let j = choose|j: int| 0 <= j < i && (#[trigger] a[j]).page_in(p);
                        lemma_shared_page_overlaps(a[j], a[i as int], p);
                        assert(false);
                    }
                }
                assert(a.skip(i as int).drop_first() =~= a.skip(i as int + 1));
                assert(a.skip(i as int)[0] == a[i as int]);
                assert(anon_page_total(a.skip(i as int)) == (if area.anonymous() {
                    area.page_count()
                } else {
                    0
                }) + anon_page_total(a.skip(i as int + 1)));
                assert forall|k: int| 0 <= k < a.skip(i as int + 1).len()
                    implies (#[trigger] a.skip(i as int + 1)[k]).map_ok() by {
                    assert(a.skip(i as int + 1)[k] == a[i + 1 + k]);
                }
                lemma_anon_total_nonneg(a.skip(i as int + 1));
            }
            let ghost avb = alloc.avail();
            let ghost tb = pt.table();
            area.map(&mut pt, alloc);
            v.push(area);
            proof {
                assert(a.take(i as int + 1) =~= a.take(i as int).push(a[i as int]));
                assert forall|j: int, p: usize| #![trigger a[j].page_in(p)]
                    0 <= j < i + 1 && a[j].page_in(p)
                    implies pt.table().contains_key(p)
                    && a[j].page_entry_ok(p, pt.table()[p]) by {
                    if j == i {
                        assert(area.page_in(p));
                    } else {
                        if area.page_in(p) {
                            lemma_shared_page_overlaps(a[j], a[i as int], p);
                            assert(false);
                        }
                        assert(tb.contains_key(p) && a[j].page_entry_ok(p, tb[p]));
                        assert(pt.table().contains_key(p) && pt.table()[p] == tb[p]);
                    }
                }
                assert forall|p: usize| #[trigger] pt.table().contains_key(p)
                    implies exists|j: int| 0 <= j < i + 1 && (#[trigger] a[j]).page_in(p) by {
                    if area.page_in(p) {
                        assert(a[i as int].page_in(p));
                    } else {
                        assert(tb.contains_key(p));
                        let j = choose|j: int| 0 <= j < i && (#[trigger] a[j]).page_in(p);
                        assert(0 <= j < i + 1 && a[j].page_in(p));
                    }
                }
                assert forall|j: int, p: usize| #![trigger a[j].page_in(p)]
                    0 <= j < i + 1 && a[j].anonymous() && a[j].page_in(p)
                    implies av1.contains(pt.table()[p].target) && !alloc.avail().contains(
                    pt.table()[p].target) by {
                    if j == i {
                        assert(area.page_in(p));
                        assert(area.frames_in(pt.table()).contains(pt.table()[p].target));
                        assert(avb.contains(pt.table()[p].target));
                        assert(!alloc.avail().contains(pt.table()[p].target));
                    } else {
                        if area.page_in(p) {
                            lemma_shared_page_overlaps(a[j], a[i as int], p);
                            assert(false);
                        }
                        assert(pt.table()[p] == tb[p]);
                        assert(!avb.contains(tb[p].target));
                        assert(alloc.avail().subset_of(avb));
                    }
                }
                assert forall|j1: int, p: usize, j2: int, q: usize|
                    #![trigger a[j1].page_in(p), a[j2].page_in(q)]
                    0 <= j1 < i + 1 && 0 <= j2 < i + 1 && a[j1].anonymous()
                    && a[j2].anonymous() && a[j1].page_in(p) && a[j2].page_in(q) && p != q
                    implies pt.table()[p].target != pt.table()[q].target by {
                    if j1 == i && j2 == i {
                        assert(area.page_in(p) && area.page_in(q));
                    } else if j1 == i {
                        assert(area.page_in(p));
                        assert(!area.page_in(q)) by {
                            if area.page_in(q) {
                                lemma_shared_page_overlaps(a[j2], a[i as int], q);
                            }
                        }
                        assert(pt.table()[q] == tb[q]);
                        assert(area.frames_in(pt.table()).contains(pt.table()[p].target));
                        assert(avb.contains(pt.table()[p].target));
                        assert(!avb.contains(tb[q].target));
                    } else if j2 == i {
                        assert(area.page_in(q));
                        assert(!area.page_in(p)) by {
                            if area.page_in(p) {
                                lemma_shared_page_overlaps(a[j1], a[i as int], p);
                            }
                        }
                        assert(pt.table()[p] == tb[p]);
                        assert(area.frames_in(pt.table()).contains(pt.table()[q].target));
                        assert(avb.contains(pt.table()[q].target));
                        assert(!avb.contains(tb[p].target));
                    } else {
                        assert(!area.page_in(p) && !area.page_in(q)) by {
                            if area.page_in(p) {
                                lemma_shared_page_overlaps(a[j1], a[i as int], p);
                            }
                            if area.page_in(q) {
                                lemma_shared_page_overlaps(a[j2], a[i as int], q);
                            }
                        }
                        assert(pt.table()[p] == tb[p] && pt.table()[q] == tb[q]);
                    }
                }
            }
            i += 1;
        }
        let ghost t1g = pt.table();
        table.end_edit(pt);
        let kstack = T::alloc_stack();
        let r = MemorySet { areas: v, page_table: table, kstack };
        proof {
            assert(r.areas@ =~= a);
            assert(r.table() == t1g);
            assert forall|p: usize| #[trigger] r.table().contains_key(p)
                implies r.covers(p) by {
                let j = choose|j: int| 0 <= j < a.len() && (#[trigger] a[j]).page_in(p);
                assert(r.areas@[j].page_in(p));
            }
            assert forall|p: usize| r.covers(p) implies r.table().contains_key(p) by {
                let j = choose|j: int| 0 <= j < r.areas@.len()
                    && (#[trigger] r.areas@[j]).page_in(p);
                assert(a[j].page_in(p));
            }
            assert forall|p: usize| #[trigger] r.anon_page(p)
                implies av1.contains(r.table()[p].target) && !alloc.avail().contains(
                r.table()[p].target) && r.table()[p].target != root by {
                let j = choose|j: int| 0 <= j < r.areas@.len()
                    && (#[trigger] r.areas@[j]).anonymous() && r.areas@[j].page_in(p);
                assert(a[j].anonymous() && a[j].page_in(p));
            }
            assert forall|p: usize, q: usize| #![trigger r.anon_page(p), r.anon_page(q)]
                r.anon_page(p) && r.anon_page(q) && p != q
                implies r.table()[p].target != r.table()[q].target by {
                let j1 = choose|j: int| 0 <= j < r.areas@.len()
                    && (#[trigger] r.areas@[j]).anonymous() && r.areas@[j].page_in(p);
                let j2 = choose|j: int| 0 <= j < r.areas@.len()
                    && (#[trigger] r.areas@[j]).anonymous() && r.areas@[j].page_in(q);
                assert(a[j1].anonymous() && a[j1].page_in(p));
                assert(a[j2].anonymous() && a[j2].page_in(q));
            }
            assert(r.inv());
            assert(r.frames_disjoint(alloc.avail()));
            assert forall|p: usize| #[trigger] self.anon_page(p)
                implies !alloc.avail().contains(self.table()[p].target) by {
                assert(!av0.contains(self.table()[p].target));
            }
            assert(self.frames_disjoint(alloc.avail()));
            assert forall|f: PhysAddr| !(r.anon_frames().contains(f)
                && self.anon_frames().contains(f)) by {
                if r.anon_frames().contains(f) && self.anon_frames().contains(f) {
                    let p = choose|p: usize| #[trigger] r.anon_page(p) && r.table()[p].target
                        == f;
                    let q = choose|q: usize| #[trigger] self.anon_page(q)
                        && self.table()[q].target == f;
                    assert(av1.contains(f));
                    assert(av0.contains(f));
                    assert(!av0.contains(f));
                }
            }
            assert(r.anon_frames().disjoint(self.anon_frames()));
        }
        r
    }
}

/// An address containing a byte of an area lies on one of the area's pages.
pub proof fn lemma_contains_page(a: MemoryArea, v: VirtAddr)
    requires
        a.start_addr <= v < a.end_addr,
    ensures
        a.page_in((v / PAGE_SIZE) as usize),
{
    vstd::arithmetic::div_mod::lemma_div_is_ordered(
        a.start_addr as int,
        v as int,
        PAGE_SIZE as int,
    );
    vstd::arithmetic::div_mod::lemma_div_is_ordered(
        v as int,
        (a.end_addr - 1) as int,
        PAGE_SIZE as int,
    );
}

impl<T: InactivePageTable> MemorySet<T> {
    /// Law: in a valid address space no two areas have intersecting
    /// covering page ranges, whatever sequence of pushes built it.
    pub proof fn lemma_areas_disjoint(self, i: int, j: int)
        requires
            self.inv(),
            0 <= i < self.areas@.len(),
            0 <= j < self.areas@.len(),
            i != j,
        ensures
            !self.areas@[i].spec_overlaps(self.areas@[j]),
    {
    }

    /// Law: at most one area contains any given address. Together with
    /// `find_area`'s contract, the area found for an address inside a
    /// just-pushed area is that area, and no area matches elsewhere.
    pub proof fn lemma_at_most_one_match(self, i: int, j: int, v: VirtAddr)
        requires
            self.inv(),
            0 <= i < self.areas@.len(),
            0 <= j < self.areas@.len(),
            self.areas@[i].start_addr <= v < self.areas@[i].end_addr,
            self.areas@[j].start_addr <= v < self.areas@[j].end_addr,
        ensures
            i == j,
    {
        if i != j {
            lemma_contains_page(self.areas@[i], v);
            lemma_contains_page(self.areas@[j], v);
            lemma_shared_page_overlaps(self.areas@[i], self.areas@[j], (v / PAGE_SIZE) as usize);
        }
    }

    /// Law: an identity area maps each of its pages to the physical frame
    /// whose base equals the page's start address.
    pub proof fn lemma_identity_target(self, i: int, p: usize)
        requires
            self.inv(),
            0 <= i < self.areas@.len(),
            self.areas@[i].phys_start_addr == Some(self.areas@[i].start_addr),
            self.areas@[i].page_in(p),
        ensures
            self.table()[p].target == p * PAGE_SIZE,
    {
        assert(self.areas@[i].page_entry_ok(p, self.table()[p]));
    }

    /// Law: an area built over physical `[base, ...)` at virtual offset
    /// `offset` maps the page at virtual address `v` to physical
    /// `v - offset`.
    pub proof fn lemma_physical_target(self, i: int, p: usize, base: PhysAddr, offset: usize)
        requires
            self.inv(),
            0 <= i < self.areas@.len(),
            self.areas@[i].phys_start_addr == Some(base),
            self.areas@[i].start_addr == base + offset,
            self.areas@[i].page_in(p),
        ensures
            self.table()[p].target == p * PAGE_SIZE - offset,
    {
        assert(self.areas@[i].page_entry_ok(p, self.table()[p]));
    }

    /// Law: a space with an empty area list maps nothing and owns no
    /// anonymous frame, so by `clear`'s contract a (second) `clear`
    /// changes neither the space nor the allocator.
    pub proof fn lemma_clear_on_empty(self)
        requires
            self.inv(),
            self.areas@.len() == 0,
        ensures
            self.anon_frames() == Set::<PhysAddr>::empty(),
            self.table() == Map::<usize, EntryData>::empty(),
    {
        assert forall|p: usize| !(#[trigger] self.table().contains_key(p)) by {
            if self.covers(p) {
                let j = choose|j: int| 0 <= j < self.areas@.len()
                    && (#[trigger] self.areas@[j]).page_in(p);
            }
        }
        assert(self.table() =~= Map::<usize, EntryData>::empty());
        assert forall|f: PhysAddr| !(#[trigger] self.anon_frames().contains(f)) by {
            if self.anon_frames().contains(f) {
                let p = choose|p: usize| #[trigger] self.anon_page(p) && self.table()[p].target
                    == f;
                let j = choose|j: int| 0 <= j < self.areas@.len()
                    && (#[trigger] self.areas@[j]).anonymous() && self.areas@[j].page_in(p);
            }
        }
        assert(self.anon_frames() =~= Set::<PhysAddr>::empty());
    }
}

/// Law: a push followed by a clear restores the allocator. With `av0` the
/// availability before the push, `pushed` the frames the push drew from it
/// (per `push`'s contract), and `prior` the space's anonymous frames from
/// before the push, the clear afterwards (per `clear`'s contract) makes
/// exactly `av0 ∪ prior` available; when the space held no anonymous frame
/// before the push, exactly `av0`.
pub proof fn lemma_push_clear_restores(
    av0: Set<PhysAddr>,
    pushed: Set<PhysAddr>,
    prior: Set<PhysAddr>,
)
    requires
        pushed.subset_of(av0),
    ensures
        av0.difference(pushed).union(prior.union(pushed)) == av0.union(prior),
        prior == Set::<PhysAddr>::empty() ==> av0.difference(pushed).union(
            prior.union(pushed),
        ) == av0,
{
    assert(av0.difference(pushed).union(prior.union(pushed)) =~= av0.union(prior));
    if prior == Set::<PhysAddr>::empty() {
        assert(av0.union(prior) =~= av0);
    }
}

} // verus!
