//! Builds a user address space from a parsed executable image.
//!
//! The parser delivers the image as plain values (`ImageInfo`); this module
//! turns its loadable segments into anonymous areas, adds the user stack,
//! and yields the entry point and initial user stack pointer.

use vstd::prelude::*;
use crate::addr::PAGE_SIZE;
use crate::consts::{USER32_STACK_OFFSET, USER_STACK_OFFSET, USER_STACK_SIZE};
use crate::memory_set::{anon_page_total, InactivePageTable, MemoryArea, MemoryAttr, MemorySet};
use crate::paging::FrameAllocator;

verus! {

/// One program header of a parsed executable image, as plain values.
#[derive(Debug, Copy, Clone)]
pub struct SegmentInfo {
    pub load: bool,
    pub virtual_addr: usize,
    pub offset: usize,
    pub file_size: usize,
    pub mem_size: usize,
    pub readable: bool,
    pub writable: bool,
    pub executable: bool,
}

/// A parsed executable image: class, entry point, and program headers.
#[derive(Debug)]
pub struct ImageInfo {
    pub is_32bit: bool,
    pub entry_point: usize,
    pub segments: Vec<SegmentInfo>,
}

/// The attributes a loadable segment's area gets: user-accessible, and
/// executable iff the segment's executable flag is set. Writability is not
/// derived from the flags: loadable segments stay writable.
pub open spec fn attr_of(seg: SegmentInfo) -> MemoryAttr {
    MemoryAttr { user: true, readonly: false, execute: seg.executable, hidden: false }
}

/// The anonymous area a loadable segment is loaded into.
pub open spec fn area_of_segment(seg: SegmentInfo) -> MemoryArea {
    MemoryArea {
        start_addr: seg.virtual_addr,
        end_addr: (seg.virtual_addr + seg.mem_size) as usize,
        phys_start_addr: None,
        flags: attr_of(seg),
        name: "",
    }
}

/// The areas of the image's loadable segments, in header order.
pub open spec fn load_areas(segs: Seq<SegmentInfo>) -> Seq<MemoryArea>
    decreases segs.len(),
{
    if segs.len() == 0 {
        Seq::empty()
    } else {
        let rest = load_areas(segs.drop_last());
        if segs.last().load {
            rest.push(area_of_segment(segs.last()))
        } else {
            rest
        }
    }
}

/// Bottom of the user stack for the given image class.
pub open spec fn spec_stack_bottom(is_32bit: bool) -> usize {
    if is_32bit {
        USER32_STACK_OFFSET
    } else {
        USER_STACK_OFFSET
    }
}

/// The user stack's area: anonymous, user-writable.
pub open spec fn stack_area(is_32bit: bool) -> MemoryArea {
    MemoryArea {
        start_addr: spec_stack_bottom(is_32bit),
        end_addr: (spec_stack_bottom(is_32bit) + USER_STACK_SIZE) as usize,
        phys_start_addr: None,
        flags: MemoryAttr { user: true, readonly: false, execute: false, hidden: false },
        name: "user_stack",
    }
}

/// The conditions under which the image's areas can be built and mapped:
/// every loadable segment is non-empty and fits the address width, no two
/// loadable segments share a page, and none touches the user stack range.
pub open spec fn image_ok(img: ImageInfo) -> bool {
    &&& forall|k: int| 0 <= k < img.segments@.len() && (#[trigger] img.segments@[k]).load
        ==> img.segments@[k].mem_size > 0 && img.segments@[k].virtual_addr
        + img.segments@[k].mem_size <= usize::MAX
    &&& forall|k1: int, k2: int|
        #![trigger img.segments@[k1], img.segments@[k2]]
        0 <= k1 < img.segments@.len() && 0 <= k2 < img.segments@.len() && k1 != k2
        && img.segments@[k1].load && img.segments@[k2].load
        ==> !area_of_segment(img.segments@[k1]).spec_overlaps(area_of_segment(img.segments@[k2]))
    &&& forall|k: int| 0 <= k < img.segments@.len() && (#[trigger] img.segments@[k]).load
        ==> !area_of_segment(img.segments@[k]).spec_overlaps(stack_area(img.is_32bit))
}

/// The attributes for a loadable segment; see `attr_of`.
pub fn memory_attr_from(seg: &SegmentInfo) -> (r: MemoryAttr)
    ensures
        r == attr_of(*seg),
{
    let mut flags = MemoryAttr::default().user();
    if seg.executable {
        flags = flags.execute();
    }
    flags
}

/// Appending an area adds its pages to the anonymous total.
pub proof fn lemma_anon_total_push(areas: Seq<MemoryArea>, x: MemoryArea)
    ensures
        anon_page_total(areas.push(x)) == anon_page_total(areas) + if x.anonymous() {
            x.page_count()
        } else {
            0
        },
    decreases areas.len(),
{
    if areas.len() == 0 {
        assert(areas.push(x).drop_first() =~= Seq::<MemoryArea>::empty());
        assert(areas.push(x)[0] == x);
        assert(anon_page_total(areas.push(x).drop_first()) == 0);
        assert(anon_page_total(areas) == 0);
    } else {
        assert(areas.push(x).drop_first() =~= areas.drop_first().push(x));
        assert(areas.push(x)[0] == areas[0]);
        lemma_anon_total_push(areas.drop_first(), x);
        assert(anon_page_total(areas.push(x)) == (if areas[0].anonymous() {
            areas[0].page_count()
        } else {
            0
        }) + anon_page_total(areas.drop_first().push(x)));
        assert(anon_page_total(areas) == (if areas[0].anonymous() {
            areas[0].page_count()
        } else {
            0
        }) + anon_page_total(areas.drop_first()));
    }
}

/// Every area built from the image is the area of one of its loadable
/// segments.
pub proof fn lemma_load_areas_index(segs: Seq<SegmentInfo>)
    ensures
        forall|i: int| 0 <= i < load_areas(segs).len() ==> exists|k: int| 0 <= k < segs.len()
            && (#[trigger] segs[k]).load && #[trigger] load_areas(segs)[i] == area_of_segment(
            segs[k],
        ),
    decreases segs.len(),
{
    if segs.len() > 0 {
        lemma_load_areas_index(segs.drop_last());
        assert forall|i: int| 0 <= i < load_areas(segs).len() implies exists|k: int|
            0 <= k < segs.len() && (#[trigger] segs[k]).load
            && #[trigger] load_areas(segs)[i] == area_of_segment(segs[k]) by {
            let pre = load_areas(segs.drop_last());
            if i < pre.len() {
                let k = choose|k: int| 0 <= k < segs.drop_last().len()
                    && (#[trigger] segs.drop_last()[k]).load && load_areas(segs.drop_last())[i]
                    == area_of_segment(segs.drop_last()[k]);
                assert(segs[k] == segs.drop_last()[k]);
                assert(segs[k].load && load_areas(segs)[i] == area_of_segment(segs[k]));
            } else {
                assert(segs.last().load);
                assert(segs[segs.len() - 1].load && load_areas(segs)[i] == area_of_segment(
                    segs[segs.len() - 1],
                ));
            }
        }
    }
}

/// Constructs the space holding one anonymous area per loadable segment,
/// in header order.
pub fn memory_set_from<T: InactivePageTable, A: FrameAllocator>(
    img: &ImageInfo,
    alloc: &mut A,
) -> (r: MemorySet<T>)
    requires
        image_ok(*img),
        old(alloc).avail().finite(),
        old(alloc).avail().len() >= 1 + anon_page_total(load_areas(img.segments@)),
    ensures
        r.inv(),
        r.areas@ == load_areas(img.segments@),
        old(alloc).avail().contains(r.page_table.root_frame()),
        final(alloc).avail().finite(),
        final(alloc).avail().subset_of(old(alloc).avail()),
        r.frames_disjoint(final(alloc).avail()),
        final(alloc).avail().len() >= old(alloc).avail().len() - 1 - anon_page_total(
            load_areas(img.segments@),
        ),
{
    let ghost segs = img.segments@;
    let ghost av0 = alloc.avail();
    proof {
        lemma_load_areas_all_ok(segs, stack_area(img.is_32bit));
        lemma_anon_total_nonneg_areas(load_areas(segs));
    }
    let mut set: MemorySet<T> = MemorySet::new(alloc);
    let mut i: usize = 0;
    proof {
        assert(segs.take(0) =~= Seq::<SegmentInfo>::empty());
    }
    while i < img.segments.len()
        invariant
            i <= segs.len(),
            image_ok(*img),
            img.segments@ == segs,
            av0.finite(),
            av0.len() >= 1 + anon_page_total(load_areas(segs)),
            set.inv(),
            set.areas@ == load_areas(segs.take(i as int)),
            av0.contains(set.page_table.root_frame()),
            alloc.avail().finite(),
            alloc.avail().subset_of(av0),
            set.frames_disjoint(alloc.avail()),
            alloc.avail().len() >= av0.len() - 1 - anon_page_total(load_areas(segs.take(i as int))),
        decreases segs.len() - i,
    {
        let seg = img.segments[i];
        proof {
            assert(seg == segs[i as int]);
            assert(segs.take(i as int + 1) =~= segs.take(i as int).push(segs[i as int]));
            assert(segs.take(i as int + 1).drop_last() =~= segs.take(i as int));
            assert(segs.take(i as int + 1).last() == segs[i as int]);
        }
        if seg.load {
            let area = MemoryArea::new(
                seg.virtual_addr,
                seg.virtual_addr + seg.mem_size,
                memory_attr_from(&seg),
                "",
            );
            proof {
                assert(area == area_of_segment(segs[i as int]));
                assert(area.map_ok());
                lemma_load_areas_index(segs.take(i as int));
                assert forall|j: int| 0 <= j < set.areas@.len()
                    implies !area.spec_overlaps(#[trigger] set.areas@[j]) by {
                    let k = choose|k: int| 0 <= k < segs.take(i as int).len()
                        && (#[trigger] segs.take(i as int)[k]).load && load_areas(
                        segs.take(i as int),
                    )[j] == area_of_segment(segs.take(i as int)[k]);
                    assert(segs[k] == segs.take(i as int)[k]);
                    assert(set.areas@[j] == area_of_segment(segs[k]));
                    assert(!area_of_segment(segs[i as int]).spec_overlaps(area_of_segment(
                        segs[k],
                    )));
                }
                // enough frames for this area
                lemma_anon_total_prefix_mono(segs, i as int + 1);
                lemma_anon_total_push(load_areas(segs.take(i as int)), area);
                assert(anon_page_total(load_areas(segs.take(i as int + 1)))
                    == anon_page_total(load_areas(segs.take(i as int))) + area.page_count());
                assert(anon_page_total(load_areas(segs.take(i as int + 1)))
                    <= anon_page_total(load_areas(segs)));
                assert(alloc.avail().len() >= area.page_count());
            }
            set.push(area, alloc);
            proof {
                assert(set.areas@ == load_areas(segs.take(i as int + 1)));
            }
        } else {
            proof {
                assert(load_areas(segs.take(i as int + 1)) == load_areas(segs.take(i as int)));
            }
        }
        i += 1;
    }
    proof {
        assert(segs.take(segs.len() as int) =~= segs);
    }
    set
}

/// Every area the loader builds is mappable, and none overlaps the given
/// stack area.
pub proof fn lemma_load_areas_all_ok(segs: Seq<SegmentInfo>, stack: MemoryArea)
    requires
        forall|k: int| 0 <= k < segs.len() && (#[trigger] segs[k]).load ==> segs[k].mem_size > 0
            && segs[k].virtual_addr + segs[k].mem_size <= usize::MAX,
        forall|k: int| 0 <= k < segs.len() && (#[trigger] segs[k]).load
            ==> !area_of_segment(segs[k]).spec_overlaps(stack),
    ensures
        forall|i: int| 0 <= i < load_areas(segs).len() ==> (#[trigger] load_areas(segs)[i]).map_ok(),
        forall|i: int| 0 <= i < load_areas(segs).len() ==> !(#[trigger] load_areas(segs)[i]).spec_overlaps(stack),
{
    lemma_load_areas_index(segs);
    assert forall|i: int| 0 <= i < load_areas(segs).len()
        implies (#[trigger] load_areas(segs)[i]).map_ok() && !load_areas(segs)[i].spec_overlaps(
        stack,
    ) by {
        let k = choose|k: int| 0 <= k < segs.len() && (#[trigger] segs[k]).load && load_areas(
            segs,
        )[i] == area_of_segment(segs[k]);
    }
}

/// The anonymous total of a sequence of mappable areas is non-negative.
pub proof fn lemma_anon_total_nonneg_areas(areas: Seq<MemoryArea>)
    requires
        forall|i: int| 0 <= i < areas.len() ==> (#[trigger] areas[i]).map_ok(),
    ensures
        anon_page_total(areas) >= 0,
{
    crate::memory_set::lemma_anon_total_nonneg(areas);
}

/// A prefix of the loadable areas never needs more frames than the whole.
pub proof fn lemma_anon_total_prefix_mono(segs: Seq<SegmentInfo>, k: int)
    requires
        0 <= k <= segs.len(),
        forall|j: int| 0 <= j < segs.len() && (#[trigger] segs[j]).load ==> segs[j].mem_size > 0
            && segs[j].virtual_addr + segs[j].mem_size <= usize::MAX,
    ensures
        anon_page_total(load_areas(segs.take(k))) <= anon_page_total(load_areas(segs)),
    decreases segs.len() - k,
{
    if k == segs.len() {
        assert(segs.take(k) =~= segs);
    } else {
        assert(segs.take(k + 1) =~= segs.take(k).push(segs[k]));
        assert(segs.take(k + 1).drop_last() =~= segs.take(k));
        if segs[k].load {
            let area = area_of_segment(segs[k]);
            assert(load_areas(segs.take(k + 1)) == load_areas(segs.take(k)).push(area));
            lemma_anon_total_push(load_areas(segs.take(k)), area);
            assert(area.map_ok());
            vstd::arithmetic::div_mod::lemma_div_is_ordered(
                area.start_addr as int,
                (area.end_addr - 1) as int,
                PAGE_SIZE as int,
            );
        } else {
            assert(load_areas(segs.take(k + 1)) == load_areas(segs.take(k)));
        }
        lemma_anon_total_prefix_mono(segs, k + 1);
    }
}

/// Builds the full user address space: the loadable segments' areas plus
/// the user stack. Returns the space, the image's entry point, and the
/// initial user stack pointer, set two 32-bit words below the stack top.
pub fn new_user_memory_set<T: InactivePageTable, A: FrameAllocator>(
    img: &ImageInfo,
    alloc: &mut A,
) -> (r: (MemorySet<T>, usize, usize))
    requires
        image_ok(*img),
        old(alloc).avail().finite(),
        old(alloc).avail().len() >= 1 + anon_page_total(load_areas(img.segments@)) + stack_area(
            img.is_32bit,
        ).page_count(),
    ensures
        r.0.inv(),
        r.0.areas@ == load_areas(img.segments@).push(stack_area(img.is_32bit)),
        r.0.frames_disjoint(final(alloc).avail()),
        final(alloc).avail().finite(),
        final(alloc).avail().subset_of(old(alloc).avail()),
        old(alloc).avail().contains(r.0.page_table.root_frame()),
        r.1 == img.entry_point,
        r.2 == spec_stack_bottom(img.is_32bit) + USER_STACK_SIZE - 8,
{
    proof {
        assert(stack_area(img.is_32bit).map_ok());
        vstd::arithmetic::div_mod::lemma_div_is_ordered(
            stack_area(img.is_32bit).start_addr as int,
            (stack_area(img.is_32bit).end_addr - 1) as int,
            PAGE_SIZE as int,
        );
    }
    let mut set: MemorySet<T> = memory_set_from(img, alloc);
    let stack_bottom: usize = if img.is_32bit {
        USER32_STACK_OFFSET
    } else {
        USER_STACK_OFFSET
    };
    let stack_top: usize = stack_bottom + USER_STACK_SIZE;
    let area = MemoryArea::new(
        stack_bottom,
        stack_top,
        MemoryAttr::default().user(),
        "user_stack",
    );
    proof {
        assert(area == stack_area(img.is_32bit));
        lemma_load_areas_all_ok(img.segments@, stack_area(img.is_32bit));
        assert forall|j: int| 0 <= j < set.areas@.len() implies !area.spec_overlaps(
            #[trigger] set.areas@[j],
        ) by {
            assert(!set.areas@[j].spec_overlaps(area));
        }
    }
    set.push(area, alloc);
    (set, img.entry_point, stack_top - 8)
}

/// Decides at run time whether an image can be loaded; exactly the
/// conditions of `image_ok`.
pub fn validate_image(img: &ImageInfo) -> (r: bool)
    ensures
        r == image_ok(*img),
{
    let stack_bottom: usize = if img.is_32bit {
        USER32_STACK_OFFSET
    } else {
        USER_STACK_OFFSET
    };
    let stack = MemoryArea::new(
        stack_bottom,
        stack_bottom + USER_STACK_SIZE,
        MemoryAttr::default().user(),
        "user_stack",
    );
    proof {
        assert(stack == stack_area(img.is_32bit));
    }
    let n = img.segments.len();
    let mut i: usize = 0;
    while i < n
        invariant
            n == img.segments@.len(),
            i <= n,
            stack == stack_area(img.is_32bit),
            forall|k: int| 0 <= k < i && (#[trigger] img.segments@[k]).load
                ==> img.segments@[k].mem_size > 0 && img.segments@[k].virtual_addr
                + img.segments@[k].mem_size <= usize::MAX,
            forall|k: int| 0 <= k < i && (#[trigger] img.segments@[k]).load
                ==> !area_of_segment(img.segments@[k]).spec_overlaps(stack_area(img.is_32bit)),
            forall|k1: int, k2: int|
                #![trigger img.segments@[k1], img.segments@[k2]]
                0 <= k1 < i && 0 <= k2 < i && k1 != k2 && img.segments@[k1].load
                && img.segments@[k2].load ==> !area_of_segment(img.segments@[k1]).spec_overlaps(
                area_of_segment(img.segments@[k2])),
        decreases n - i,
    {
        let seg = img.segments[i];
        proof {
            assert(seg == img.segments@[i as int]);
        }
        if seg.load {
            if seg.mem_size == 0 {
                return false;
            }
            let end = match seg.virtual_addr.checked_add(seg.mem_size) {
                Some(e) => e,
                None => {
                    return false;
                },
            };
            let a = MemoryArea::new(seg.virtual_addr, end, memory_attr_from(&seg), "");
            proof {
                assert(a == area_of_segment(img.segments@[i as int]));
            }
            if a.is_overlap_with(&stack) {
                return false;
            }
            let mut j: usize = 0;
            while j < i
                invariant
                    j <= i < n,
                    n == img.segments@.len(),
                    seg == img.segments@[i as int],
                    seg.load,
                    a == area_of_segment(img.segments@[i as int]),
                    a.start_addr < a.end_addr,
                    forall|k: int| 0 <= k < i && (#[trigger] img.segments@[k]).load
                        ==> img.segments@[k].mem_size > 0 && img.segments@[k].virtual_addr
                        + img.segments@[k].mem_size <= usize::MAX,
                    forall|k: int| 0 <= k < j && (#[trigger] img.segments@[k]).load
                        ==> !area_of_segment(img.segments@[k]).spec_overlaps(area_of_segment(
                        img.segments@[i as int])),
                decreases i - j,
            {
                let other = img.segments[j];
                proof {
                    assert(other == img.segments@[j as int]);
                }
                if other.load {
                    let b = MemoryArea::new(
                        other.virtual_addr,
                        other.virtual_addr + other.mem_size,
                        memory_attr_from(&other),
                        "",
                    );
                    proof {
                        assert(b == area_of_segment(img.segments@[j as int]));
                    }
                    if b.is_overlap_with(&a) {
                        return false;
                    }
                }
                j += 1;
            }
            proof {
                assert forall|k1: int, k2: int|
                    #![trigger img.segments@[k1], img.segments@[k2]]
                    0 <= k1 < i + 1 && 0 <= k2 < i + 1 && k1 != k2 && img.segments@[k1].load
                    && img.segments@[k2].load implies !area_of_segment(
                    img.segments@[k1]).spec_overlaps(area_of_segment(img.segments@[k2])) by {
                    if k1 == i {
                        assert(!area_of_segment(img.segments@[k2]).spec_overlaps(
                            area_of_segment(img.segments@[i as int])));
                    }
                    if k2 == i {
                        assert(!area_of_segment(img.segments@[k1]).spec_overlaps(
                            area_of_segment(img.segments@[i as int])));
                    }
                }
            }
        }
        i += 1;
    }
    true
}

/// The number of frames a user space for the image takes: the table's
/// root frame, one frame per loadable page, and the stack's pages.
/// `None` exactly when that number does not fit a machine word.
pub fn frames_demand(img: &ImageInfo) -> (r: Option<usize>)
    requires
        image_ok(*img),
    ensures
        match r {
            Some(n) => n == 1 + anon_page_total(load_areas(img.segments@)) + stack_area(
                img.is_32bit,
            ).page_count(),
            None => 1 + anon_page_total(load_areas(img.segments@)) + stack_area(
                img.is_32bit,
            ).page_count() > usize::MAX,
        },
{
    let ghost segs = img.segments@;
    let mut total: usize = 1 + USER_STACK_SIZE / PAGE_SIZE;
    proof {
        assert(stack_area(img.is_32bit).page_count() == USER_STACK_SIZE as int
            / PAGE_SIZE as int);
        assert(segs.take(0) =~= Seq::<SegmentInfo>::empty());
    }
    let mut i: usize = 0;
    while i < img.segments.len()
        invariant
            i <= segs.len(),
            image_ok(*img),
            img.segments@ == segs,
            total == 1 + stack_area(img.is_32bit).page_count() + anon_page_total(
                load_areas(segs.take(i as int)),
            ),
        decreases segs.len() - i,
    {
        let seg = img.segments[i];
        proof {
            assert(seg == segs[i as int]);
            assert(segs.take(i as int + 1) =~= segs.take(i as int).push(segs[i as int]));
            assert(segs.take(i as int + 1).drop_last() =~= segs.take(i as int));
            assert(segs.take(i as int + 1).last() == segs[i as int]);
        }
        if seg.load {
            let end = seg.virtual_addr + seg.mem_size;
            proof {
                vstd::arithmetic::div_mod::lemma_div_is_ordered(
                    seg.virtual_addr as int,
                    (end - 1) as int,
                    PAGE_SIZE as int,
                );
            }
            let pc = (end - 1) / PAGE_SIZE + 1 - seg.virtual_addr / PAGE_SIZE;
            proof {
                assert(pc == area_of_segment(segs[i as int]).page_count());
                lemma_anon_total_push(
                    load_areas(segs.take(i as int)),
                    area_of_segment(segs[i as int]),
                );
            }
            total = match total.checked_add(pc) {
                Some(t) => t,
                None => {
                    proof {
                        lemma_anon_total_prefix_mono(segs, i as int + 1);
                    }
                    return None;
                },
            };
        }
        i += 1;
    }
    proof {
        assert(segs.take(segs.len() as int) =~= segs);
    }
    Some(total)
}

/// Builds the user address space when the image is loadable and the
/// allocator can back it; otherwise reports failure with the allocator
/// unchanged. The graceful counterpart of `new_user_memory_set`.
pub fn try_new_user<T: InactivePageTable, A: FrameAllocator>(
    img: &ImageInfo,
    alloc: &mut A,
) -> (r: Option<(MemorySet<T>, usize, usize)>)
    requires
        old(alloc).avail().finite(),
    ensures
        match r {
            Some(t) => {
                &&& image_ok(*img)
                &&& t.0.inv()
                &&& t.0.areas@ == load_areas(img.segments@).push(stack_area(img.is_32bit))
                &&& t.0.frames_disjoint(final(alloc).avail())
                &&& final(alloc).avail().finite()
                &&& final(alloc).avail().subset_of(old(alloc).avail())
                &&& t.1 == img.entry_point
                &&& t.2 == spec_stack_bottom(img.is_32bit) + USER_STACK_SIZE - 8
            },
            None => final(alloc).avail() == old(alloc).avail(),
        },
        (r is Some) <==> image_ok(*img) && {
            let demand = 1 + anon_page_total(load_areas(img.segments@)) + stack_area(
                img.is_32bit,
            ).page_count();
            demand <= usize::MAX && demand <= old(alloc).avail().len()
        },
{
    if !validate_image(img) {
        return None;
    }
    let demand = match frames_demand(img) {
        Some(d) => d,
        None => {
            return None;
        },
    };
    if alloc.free_count() < demand {
        return None;
    }
    Some(new_user_memory_set(img, alloc))
}

/// One byte-copy of the image-loading protocol: `len` bytes of the image
/// at `src_offset` land at virtual address `dest` in the new space.
#[derive(Debug, Copy, Clone, PartialEq, Eq, Structural)]
pub struct CopyOp {
    pub src_offset: usize,
    pub len: usize,
    pub dest: usize,
}

/// The copies the loader performs, in header order: one per program
/// header with a non-empty file image.
pub open spec fn spec_copy_plan(segs: Seq<SegmentInfo>) -> Seq<CopyOp>
    decreases segs.len(),
{
    if segs.len() == 0 {
        Seq::empty()
    } else {
        let rest = spec_copy_plan(segs.drop_last());
        if segs.last().file_size > 0 {
            rest.push(
                CopyOp {
                    src_offset: segs.last().offset,
                    len: segs.last().file_size,
                    dest: segs.last().virtual_addr,
                },
            )
        } else {
            rest
        }
    }
}

/// What to copy where once the new space is entered: for each program
/// header with `file_size > 0`, its file bytes go to its virtual address.
/// Bytes beyond `file_size` up to `mem_size` stay as the fresh frames
/// left them. Performing the writes needs the target space active and is
/// outside this model.
pub fn copy_plan(img: &ImageInfo) -> (r: Vec<CopyOp>)
    ensures
        r@ == spec_copy_plan(img.segments@),
{
    let ghost segs = img.segments@;
    let mut plan: Vec<CopyOp> = Vec::new();
    let mut i: usize = 0;
    proof {
        assert(segs.take(0) =~= Seq::<SegmentInfo>::empty());
    }
    while i < img.segments.len()
        invariant
            i <= segs.len(),
            img.segments@ == segs,
            plan@ == spec_copy_plan(segs.take(i as int)),
        decreases segs.len() - i,
    {
        let seg = img.segments[i];
        proof {
            assert(seg == segs[i as int]);
            assert(segs.take(i as int + 1) =~= segs.take(i as int).push(segs[i as int]));
            assert(segs.take(i as int + 1).drop_last() =~= segs.take(i as int));
            assert(segs.take(i as int + 1).last() == segs[i as int]);
        }
        if seg.file_size > 0 {
            plan.push(
                CopyOp { src_offset: seg.offset, len: seg.file_size, dest: seg.virtual_addr },
            );
        }
        i += 1;
    }
    proof {
        assert(segs.take(segs.len() as int) =~= segs);
    }
    plan
}

/// The two zero 32-bit words seeded at the top of a 32-bit image's user
/// stack, low address first: argc at `top - 8`, the argv placeholder at
/// `top - 4`. A 64-bit image gets none.
pub fn stack_seed_words(is_32bit: bool) -> (r: Option<(usize, usize)>)
    ensures
        is_32bit ==> r == Some((
            (spec_stack_bottom(true) + USER_STACK_SIZE - 8) as usize,
            (spec_stack_bottom(true) + USER_STACK_SIZE - 4) as usize,
        )),
        !is_32bit ==> r is None,
{
    if is_32bit {
        let top = USER32_STACK_OFFSET + USER_STACK_SIZE;
        Some((top - 8, top - 4))
    } else {
        None
    }
}

} // verus!
