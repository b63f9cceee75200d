//! Reference implementations of the paging interfaces over plain data: a
//! page table as a dense slot array and a frame allocator as a free list.
//! They stand in for an architecture's implementations, in tests and as
//! witnesses that the interfaces' contracts can be met.

use vstd::prelude::*;
use crate::addr::{PhysAddr, VirtAddr, PAGE_SIZE};
use crate::memory_set::{InactivePageTable, Stack};
use crate::paging::{fresh_entry, Entry, EntryData, FrameAllocator, PageTable};

verus! {

broadcast use vstd::set::group_set_axioms;

impl Entry for EntryData {
    open spec fn entry_data(&self) -> EntryData {
        *self
    }

    fn update(&mut self) {
    }

    fn accessed(&self) -> bool {
        self.accessed
    }

    fn dirty(&self) -> bool {
        self.dirty
    }

    fn writable(&self) -> bool {
        self.writable
    }

    fn present(&self) -> bool {
        self.present
    }

    fn clear_accessed(&mut self) {
        self.accessed = false;
    }

    fn clear_dirty(&mut self) {
        self.dirty = false;
    }

    fn set_writable(&mut self, value: bool) {
        self.writable = value;
    }

    fn set_present(&mut self, value: bool) {
        self.present = value;
    }

    fn target(&self) -> PhysAddr {
        self.target
    }

    fn set_target(&mut self, target: PhysAddr) {
        self.target = target;
    }

    fn writable_shared(&self) -> bool {
        self.writable_shared
    }

    fn readonly_shared(&self) -> bool {
        self.readonly_shared
    }

    fn set_shared(&mut self, writable: bool) {
        self.writable_shared = writable;
        self.readonly_shared = !writable;
    }

    fn clear_shared(&mut self) {
        self.writable_shared = false;
        self.readonly_shared = false;
    }

    fn swapped(&self) -> bool {
        self.swapped
    }

    fn set_swapped(&mut self, value: bool) {
        self.swapped = value;
    }

    fn user(&self) -> bool {
        self.user
    }

    fn set_user(&mut self, value: bool) {
        self.user = value;
    }

    fn execute(&self) -> bool {
        self.execute
    }

    fn set_execute(&mut self, value: bool) {
        self.execute = value;
    }
}

/// The partial map a slot array denotes: slot `p` holds page `p`'s entry.
pub open spec fn slots_map(s: Seq<Option<EntryData>>) -> Map<usize, EntryData> {
    Map::new(|p: usize| 0 <= p < s.len() && s[p as int] is Some, |p: usize| s[p as int]->0)
}

/// Writing a slot inserts into the denoted map.
pub broadcast proof fn lemma_slots_update(s: Seq<Option<EntryData>>, p: usize, e: EntryData)
    requires
        0 <= p < s.len(),
    ensures
        #[trigger] slots_map(s.update(p as int, Some(e))) == slots_map(s).insert(p, e),
{
    assert(slots_map(s.update(p as int, Some(e))) =~= slots_map(s).insert(p, e));
}

/// Clearing a slot removes from the denoted map.
pub broadcast proof fn lemma_slots_clear(s: Seq<Option<EntryData>>, p: usize)
    requires
        0 <= p < s.len(),
    ensures
        #[trigger] slots_map(s.update(p as int, None::<EntryData>)) == slots_map(s).remove(p),
{
    assert(slots_map(s.update(p as int, None::<EntryData>)) =~= slots_map(s).remove(p));
}

/// Appending an empty slot leaves the denoted map unchanged.
pub broadcast proof fn lemma_slots_grow(s: Seq<Option<EntryData>>)
    ensures
        #[trigger] slots_map(s.push(None)) == slots_map(s),
{
    assert(slots_map(s.push(None)) =~= slots_map(s));
}

/// Inserting twice at a key keeps the later entry.
pub broadcast proof fn lemma_insert_twice(
    m: Map<usize, EntryData>,
    k: usize,
    a: EntryData,
    b: EntryData,
)
    ensures
        #[trigger] m.insert(k, a).insert(k, b) == m.insert(k, b),
{
    assert(m.insert(k, a).insert(k, b) =~= m.insert(k, b));
}

/// The filled entry slot at index `i`, for mutation in place.
fn entry_slot(v: &mut Vec<Option<EntryData>>, i: usize) -> (r: &mut EntryData)
    requires
        i < old(v)@.len(),
        old(v)@[i as int] is Some,
    ensures
        *r == old(v)@[i as int]->0,
        final(v)@ == old(v)@.update(i as int, Some(*final(r))),
{
    match &mut v[i] {
        Some(e) => e,
        None => vstd::pervasive::unreached(),
    }
}

/// An active page table over a dense slot array.
pub struct ModelPageTable {
    pub slots: Vec<Option<EntryData>>,
}

impl PageTable for ModelPageTable {
    type E = EntryData;

    open spec fn table(&self) -> Map<usize, EntryData> {
        slots_map(self.slots@)
    }

    fn map(&mut self, addr: VirtAddr, target: PhysAddr) -> (entry: &mut EntryData) {
        broadcast use lemma_slots_update, lemma_slots_grow, lemma_insert_twice;

        let page = addr / PAGE_SIZE;
        let ghost t0 = slots_map(self.slots@);
        while self.slots.len() <= page
            invariant
                slots_map(self.slots@) == t0,
            decreases page + 1 - self.slots.len(),
        {
            self.slots.push(None);
        }
        let slot = &mut self.slots[page];
        *slot = Some(
            EntryData {
                target,
                present: true,
                writable: true,
                user: false,
                execute: false,
                accessed: false,
                dirty: false,
                writable_shared: false,
                readonly_shared: false,
                swapped: false,
            },
        );
        proof {
            assert(slots_map(self.slots@) == t0.insert(page, fresh_entry(target)));
        }
        entry_slot(&mut self.slots, page)
    }

    fn unmap(&mut self, addr: VirtAddr) {
        broadcast use lemma_slots_clear;

        let page = addr / PAGE_SIZE;
        let slot = &mut self.slots[page];
        *slot = None;
    }

    fn get_entry(&mut self, addr: VirtAddr) -> (entry: &mut EntryData) {
        broadcast use lemma_slots_update;

        let page = addr / PAGE_SIZE;
        entry_slot(&mut self.slots, page)
    }
}

/// An inactive page table over the same slot array, with its root frame.
pub struct ModelInactiveTable {
    pub slots: Vec<Option<EntryData>>,
    pub root: PhysAddr,
}

impl InactivePageTable for ModelInactiveTable {
    type Active = ModelPageTable;

    open spec fn table(&self) -> Map<usize, EntryData> {
        slots_map(self.slots@)
    }

    open spec fn root_frame(&self) -> PhysAddr {
        self.root
    }

    fn new(root: PhysAddr) -> (r: Self) {
        let r = ModelInactiveTable { slots: Vec::new(), root };
        proof {
            assert(r.table() =~= Map::<usize, EntryData>::empty());
        }
        r
    }

    fn new_bare(root: PhysAddr) -> (r: Self) {
        let r = ModelInactiveTable { slots: Vec::new(), root };
        proof {
            assert(r.table() =~= Map::<usize, EntryData>::empty());
        }
        r
    }

    fn begin_edit(&mut self) -> (pt: ModelPageTable) {
        let mut v: Vec<Option<EntryData>> = Vec::new();
        core::mem::swap(&mut v, &mut self.slots);
        ModelPageTable { slots: v }
    }

    fn end_edit(&mut self, pt: ModelPageTable) {
        self.slots = pt.slots;
    }

    fn activate(&self) {
    }

    fn token(&self) -> usize {
        self.root
    }

    fn alloc_stack() -> Stack {
        Stack { bottom: 0x20_0000, top: 0x20_8000 }
    }
}

/// The set of frames a free list offers.
pub open spec fn listed_frames(s: Seq<PhysAddr>) -> Set<PhysAddr> {
    Set::new(|f: PhysAddr| s.contains(f))
}

/// A free list always offers finitely many frames.
pub proof fn lemma_listed_frames_finite(s: Seq<PhysAddr>)
    ensures
        listed_frames(s).finite(),
        listed_frames(s).len() <= s.len(),
    decreases s.len(),
{
    if s.len() == 0 {
        assert(listed_frames(s) =~= Set::<PhysAddr>::empty());
    } else {
        lemma_listed_frames_finite(s.drop_last());
        assert forall|f: PhysAddr| #[trigger] listed_frames(s).contains(f)
            == listed_frames(s.drop_last()).insert(s.last()).contains(f) by {
            if s.contains(f) {
                let i = choose|i: int| 0 <= i < s.len() && s[i] == f;
                if i < s.len() - 1 {
                    assert(s.drop_last()[i] == f);
                    assert(s.drop_last().contains(f));
                }
            }
            if s.drop_last().contains(f) {
                let i = choose|i: int| 0 <= i < s.drop_last().len() && s.drop_last()[i] == f;
                assert(s[i] == f);
                assert(s.contains(f));
            }
            if f == s.last() {
                assert(s.contains(f));
            }
        }
        assert(listed_frames(s) =~= listed_frames(s.drop_last()).insert(s.last()));
    }
}

/// `s` with every occurrence of `f` removed, order kept.
pub open spec fn drop_all(s: Seq<PhysAddr>, f: PhysAddr) -> Seq<PhysAddr>
    decreases s.len(),
{
    if s.len() == 0 {
        s
    } else if s.last() == f {
        drop_all(s.drop_last(), f)
    } else {
        drop_all(s.drop_last(), f).push(s.last())
    }
}

/// Removing occurrences never lengthens a list.
pub proof fn lemma_drop_all_len(s: Seq<PhysAddr>, f: PhysAddr)
    ensures
        drop_all(s, f).len() <= s.len(),
    decreases s.len(),
{
    if s.len() > 0 {
        lemma_drop_all_len(s.drop_last(), f);
    }
}

/// The order a free list yields frames: the last element first, then the
/// remainder, duplicates of the drawn frame dropped.
pub open spec fn order_of(s: Seq<PhysAddr>) -> Seq<PhysAddr>
    decreases s.len(),
    via order_of_decreases
{
    if s.len() == 0 {
        Seq::empty()
    } else {
        seq![s.last()] + order_of(drop_all(s.drop_last(), s.last()))
    }
}

#[via_fn]
proof fn order_of_decreases(s: Seq<PhysAddr>) {
    if s.len() > 0 {
        lemma_drop_all_len(s.drop_last(), s.last());
    }
}

/// A frame allocator over an explicit free list.
pub struct ModelFrameAllocator {
    pub free: Vec<PhysAddr>,
}

impl ModelFrameAllocator {
    /// `count` frames starting at `base`, one page apart.
    pub fn new_range(base: PhysAddr, count: usize) -> (r: Self)
        requires
            base + count * PAGE_SIZE <= usize::MAX,
        ensures
            r.avail().finite(),
            r.avail().len() == count,
            forall|k: usize| k < count ==> #[trigger] r.avail().contains((base + k * PAGE_SIZE) as usize),
    {
        let mut free: Vec<PhysAddr> = Vec::new();
        let mut k: usize = 0;
        proof {
            assert(listed_frames(free@) =~= Set::<PhysAddr>::empty());
        }
        while k < count
            invariant
                k <= count,
                base + count * PAGE_SIZE <= usize::MAX,
                free@.len() == k,
                forall|j: int| 0 <= j < k ==> free@[j] == base + j * PAGE_SIZE,
                listed_frames(free@).finite(),
                listed_frames(free@).len() == k,
                forall|j: usize| j < k ==> #[trigger] listed_frames(free@).contains(
                    (base + j * PAGE_SIZE) as usize,
                ),
            decreases count - k,
        {
            proof {
                vstd::arithmetic::mul::lemma_mul_inequality(
                    k as int + 1,
                    count as int,
                    PAGE_SIZE as int,
                );
                vstd::arithmetic::mul::lemma_mul_is_distributive_add_other_way(
                    PAGE_SIZE as int,
                    k as int,
                    1,
                );
            }
            let f = base + k * PAGE_SIZE;
            let ghost sprev = free@;
            proof {
                if listed_frames(sprev).contains(f) {
                    let i = choose|i: int| 0 <= i < sprev.len() && sprev[i] == f;
                    vstd::arithmetic::mul::lemma_mul_strict_inequality(
                        i,
                        k as int,
                        PAGE_SIZE as int,
                    );
                    assert(false);
                }
            }
            free.push(f);
            proof {
                assert forall|g: PhysAddr| #[trigger] listed_frames(free@).contains(g)
                    == listed_frames(sprev).insert(f).contains(g) by {
                    if free@.contains(g) {
                        let i = choose|i: int| 0 <= i < free@.len() && free@[i] == g;
                        if i < sprev.len() {
                            assert(sprev[i] == g);
                            assert(sprev.contains(g));
                        }
                    }
                    if sprev.contains(g) {
                        let i = choose|i: int| 0 <= i < sprev.len() && sprev[i] == g;
                        assert(free@[i] == g);
                        assert(free@.contains(g));
                    }
                    if g == f {
                        assert(free@[free@.len() - 1] == g);
                        assert(free@.contains(g));
                    }
                }
                assert(listed_frames(free@) =~= listed_frames(sprev).insert(f));
            }
            k += 1;
        }
        ModelFrameAllocator { free }
    }
}

impl FrameAllocator for ModelFrameAllocator {
    open spec fn avail(&self) -> Set<PhysAddr> {
        listed_frames(self.free@)
    }

    open spec fn frame_order(&self) -> Seq<PhysAddr> {
        order_of(self.free@)
    }

    fn alloc_frame(&mut self) -> (r: Option<PhysAddr>) {
        let ghost s0 = self.free@;
        proof {
            lemma_listed_frames_finite(s0);
        }
        match self.free.pop() {
            None => {
                proof {
                    assert(listed_frames(s0) =~= Set::<PhysAddr>::empty());
                }
                None
            },
            Some(f) => {
                // keep a single occurrence of each frame: drop any duplicate
                let mut out: Vec<PhysAddr> = Vec::new();
                let mut i: usize = 0;
                proof {
                    assert(forall|g: PhysAddr| !out@.contains(g));
                    assert(s0.drop_last().take(0) =~= Seq::<PhysAddr>::empty());
                }
                while i < self.free.len()
                    invariant
                        i <= self.free@.len(),
                        self.free@ == s0.drop_last(),
                        forall|g: PhysAddr| #[trigger] out@.contains(g) == (
                        s0.drop_last().take(i as int).contains(g) && g != f),
                        out@ == drop_all(s0.drop_last().take(i as int), f),
                    decreases self.free@.len() - i,
                {
                    let x = self.free[i];
                    let ghost oprev = out@;
                    if x != f {
                        out.push(x);
                    }
                    proof {
                        let rest = s0.drop_last();
                        assert(rest.take(i as int + 1) =~= rest.take(i as int).push(x));
                        assert(rest.take(i as int + 1).drop_last() =~= rest.take(i as int));
                        assert(rest.take(i as int + 1).last() == x);
                        assert(out@ == drop_all(rest.take(i as int + 1), f));
                        assert forall|g: PhysAddr| #[trigger] out@.contains(g) == (
                            rest.take(i as int + 1).contains(g) && g != f) by {
                            if out@.contains(g) {
                                let j = choose|j: int| 0 <= j < out@.len() && out@[j] == g;
                                if j < oprev.len() {
                                    assert(oprev[j] == g);
                                    assert(oprev.contains(g));
                                } else {
                                    assert(g == x);
                                    assert(rest.take(i as int + 1)[i as int] == g);
                                    assert(rest.take(i as int + 1).contains(g));
                                }
                            }
                            if rest.take(i as int + 1).contains(g) && g != f {
                                let j = choose|j: int| 0 <= j < rest.take(i as int + 1).len()
                                    && #[trigger] rest.take(i as int + 1)[j] == g;
                                if j < i {
                                    assert(rest.take(i as int)[j] == g);
                                    assert(rest.take(i as int).contains(g));
                                    assert(oprev.contains(g));
                                    let j2 = choose|j2: int| 0 <= j2 < oprev.len()
                                        && oprev[j2] == g;
                                    assert(out@[j2] == g);
                                    assert(out@.contains(g));
                                } else {
                                    assert(g == x);
                                    assert(out@[out@.len() - 1] == g);
                                    assert(out@.contains(g));
                                }
                            }
                        }
                    }
                    i += 1;
                }
                self.free = out;
                proof {
                    let rest = s0.drop_last();
                    assert(rest.take(rest.len() as int) =~= rest);
                    assert(s0.contains(f)) by {
                        assert(s0[s0.len() - 1] == f);
                    }
                    assert forall|g: PhysAddr| #[trigger] listed_frames(self.free@).contains(g)
                        == listed_frames(s0).remove(f).contains(g) by {
                        if self.free@.contains(g) {
                            assert(rest.contains(g) && g != f);
                            let j = choose|j: int| 0 <= j < rest.len() && rest[j] == g;
                            assert(s0[j] == g);
                            assert(s0.contains(g));
                        }
                        if s0.contains(g) && g != f {
                            let j = choose|j: int| 0 <= j < s0.len() && s0[j] == g;
                            assert(j < s0.len() - 1);
                            assert(rest[j] == g);
                            assert(rest.contains(g));
                        }
                    }
                    assert(listed_frames(self.free@) =~= listed_frames(s0).remove(f));
                    assert(out@ == drop_all(rest, f));
                    assert(f == s0.last());
                    assert(order_of(s0) == seq![f] + order_of(drop_all(rest, f)));
                    assert(order_of(s0).len() > 0 && order_of(s0)[0] == f);
                    assert(order_of(self.free@) =~= order_of(s0).drop_first());
                }
                Some(f)
            },
        }
    }

    fn free_count(&self) -> (r: usize) {
        proof {
            lemma_listed_frames_finite(self.free@);
        }
        let mut n: usize = 0;
        let mut i: usize = 0;
        proof {
            assert(listed_frames(self.free@.take(0)) =~= Set::<PhysAddr>::empty());
        }
        while i < self.free.len()
            invariant
                i <= self.free@.len(),
                n <= i,
                listed_frames(self.free@.take(i as int)).finite(),
                n == listed_frames(self.free@.take(i as int)).len(),
            decreases self.free@.len() - i,
        {
            let x = self.free[i];
            let mut dup = false;
            let mut j: usize = 0;
            while j < i
                invariant
                    j <= i,
                    i < self.free@.len(),
                    x == self.free@[i as int],
                    dup == self.free@.take(j as int).contains(x),
                decreases i - j,
            {
                let ghost jj = j;
                if self.free[j] == x {
                    dup = true;
                    proof {
                        assert(self.free@.take(jj as int + 1)[jj as int] == x);
                        assert(self.free@.take(jj as int + 1).contains(x));
                    }
                } else {
                    proof {
                        if self.free@.take(jj as int + 1).contains(x) {
                            let m = choose|m: int| 0 <= m < jj + 1 && #[trigger] self.free@.take(
                                jj as int + 1)[m] == x;
                            if m < jj {
                                assert(self.free@.take(jj as int)[m] == x);
                                assert(self.free@.take(jj as int).contains(x));
                            }
                        }
                        if self.free@.take(jj as int).contains(x) {
                            let m = choose|m: int| 0 <= m < jj && #[trigger] self.free@.take(
                                jj as int)[m] == x;
                            assert(self.free@.take(jj as int + 1)[m] == x);
                            assert(self.free@.take(jj as int + 1).contains(x));
                        }
                    }
                }
                j += 1;
            }
            proof {
                let pre = self.free@.take(i as int);
                assert(self.free@.take(i as int + 1) =~= pre.push(x));
                assert forall|g: PhysAddr| #[trigger] listed_frames(pre.push(x)).contains(g)
                    == listed_frames(pre).insert(x).contains(g) by {
                    if pre.push(x).contains(g) {
                        let m = choose|m: int| 0 <= m < pre.push(x).len() && pre.push(x)[m] == g;
                        if m < pre.len() {
                            assert(pre[m] == g);
                            assert(pre.contains(g));
                        } else {
                            assert(g == x);
                        }
                    }
                    if pre.contains(g) {
                        let m = choose|m: int| 0 <= m < pre.len() && pre[m] == g;
                        assert(pre.push(x)[m] == g);
                        assert(pre.push(x).contains(g));
                    }
                    if g == x {
                        assert(pre.push(x)[pre.len() as int] == g);
                        assert(pre.push(x).contains(g));
                    }
                }
                assert(listed_frames(pre.push(x)) =~= listed_frames(pre).insert(x));
                assert(listed_frames(pre).contains(x) == pre.contains(x));
            }
            if !dup {
                n += 1;
            }
            i += 1;
        }
        proof {
            assert(self.free@.take(self.free@.len() as int) =~= self.free@);
        }
        n
    }

    fn dealloc_frame(&mut self, target: PhysAddr) {
        let ghost s0 = self.free@;
        proof {
            lemma_listed_frames_finite(s0);
        }
        self.free.push(target);
        proof {
            assert forall|g: PhysAddr| #[trigger] listed_frames(self.free@).contains(g)
                == listed_frames(s0).insert(target).contains(g) by {
                if self.free@.contains(g) {
                    let j = choose|j: int| 0 <= j < self.free@.len() && self.free@[j] == g;
                    if j < s0.len() {
                        assert(s0[j] == g);
                        assert(s0.contains(g));
                    }
                }
                if s0.contains(g) {
                    let j = choose|j: int| 0 <= j < s0.len() && s0[j] == g;
                    assert(self.free@[j] == g);
                    assert(self.free@.contains(g));
                }
                if g == target {
                    assert(self.free@[self.free@.len() - 1] == g);
                    assert(self.free@.contains(g));
                }
            }
            assert(listed_frames(self.free@) =~= listed_frames(s0).insert(target));
            lemma_listed_frames_finite(self.free@);
        }
    }
}

} // verus!
