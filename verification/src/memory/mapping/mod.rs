//! Sv39 page tables and the address spaces built on them.
use vstd::prelude::*;

pub mod page_table_entry;
pub mod page_table;
pub mod segment;
pub mod mapping;
pub mod memory_set;

pub use page_table_entry::Flags;

use crate::memory::MemoryResult;
use crate::memory::address::{VirtualAddress, vpn_key};
use crate::memory::config::{KERNEL_MAP_OFFSET, MEMORY_END_ADDRESS};
use crate::memory::frame::allocator::{Allocator, FrameAllocator, NO_FREE_FRAME};
use crate::memory::mapping::mapping::Mapping;
use crate::memory::mapping::memory_set::{MemorySet, page_mapped, page_key, frames_total};
use crate::memory::mapping::page_table_entry::{
    PageTableEntry, MAX_PPN, VALID, READABLE, WRITABLE, EXECUTABLE, lemma_spec_new,
};
use crate::memory::mapping::segment::{MapType, Segment};
use crate::memory::range::Range;

verus! {

/// The kernel's linear view of the end of RAM.
pub open spec fn memory_end_va() -> u64 {
    (MEMORY_END_ADDRESS + KERNEL_MAP_OFFSET) as u64
}

/// The five kernel segments laid out by the linker symbols: text, read-only
/// data, data, bss, and the rest of RAM, each mapped linearly.
pub open spec fn kernel_segments_spec(
    text_start: u64,
    rodata_start: u64,
    data_start: u64,
    bss_start: u64,
    kernel_end: u64,
) -> Seq<(u64, u64, u8)> {
    seq![
        (text_start, rodata_start, VALID | READABLE | EXECUTABLE),
        (rodata_start, data_start, VALID | READABLE),
        (data_start, bss_start, VALID | READABLE | WRITABLE),
        (bss_start, kernel_end, VALID | READABLE | WRITABLE),
        (kernel_end, memory_end_va(), VALID | READABLE | WRITABLE),
    ]
}

/// `ms` is the kernel's address space for the given linker symbols: its
/// tables are well formed, it holds the five kernel segments of
/// `kernel_segments_spec` (all linear), every page of them is mapped, and
/// nothing else is.
pub open spec fn is_kernel_set(
    ms: MemorySet,
    text_start: u64,
    rodata_start: u64,
    data_start: u64,
    bss_start: u64,
    kernel_end: u64,
) -> bool {
    let layout = kernel_segments_spec(text_start, rodata_start, data_start, bss_start, kernel_end);
    &&& ms.mapping.wf()
    &&& ms.allocated_pairs@.len() == 0
    &&& ms.segments@.len() == 5
    &&& forall|s: int| 0 <= s < 5 ==> {
        let seg = #[trigger] ms.segments@[s];
        &&& seg.map_type is Linear
        &&& seg.page_range.lo() == layout[s].0 / 4096
        &&& seg.page_range.hi() == layout[s].1 / 4096
        &&& seg.flags.0 == layout[s].2
    }
    &&& forall|s: int, j: int|
        0 <= s < 5 && 0 <= j < ms.segments@[s].page_range.size() ==> #[trigger] page_mapped(ms.mapping@, ms.segments@[s], j)
    &&& forall|k: nat| #[trigger] ms.mapping@.contains_key(k) ==> exists|s: int, j: int|
        0 <= s < 5 && 0 <= j < ms.segments@[s].page_range.size() && k == #[trigger] page_key(ms.segments@[s], j)
}

/// The linear segment over the page-aligned kernel addresses `[start, end)`.
fn kernel_segment(start: VirtualAddress, end: VirtualAddress, flags: u8) -> (r: Segment)
    requires
        start.0 % 4096 == 0,
        end.0 % 4096 == 0,
    ensures
        r.map_type is Linear,
        r.page_range.lo() == start.0 / 4096,
        r.page_range.hi() == end.0 / 4096,
        r.flags.0 == flags,
{
    let range = Range::from_bounds(start, end);
    Segment { map_type: MapType::Linear, page_range: range.into(), flags: Flags(flags) }
}

/// The kernel's address space: the five kernel segments (see
/// `kernel_segments_spec`) mapped linearly, with tables from `allocator`.
/// The linker symbols must be page aligned, in order, and inside the linear
/// region that ends at the end of RAM. Fails with `NO_FREE_FRAME` when a
/// table is needed and no frame is left.
pub fn new_kernel<T: Allocator>(
    text_start: VirtualAddress,
    rodata_start: VirtualAddress,
    data_start: VirtualAddress,
    bss_start: VirtualAddress,
    kernel_end: VirtualAddress,
    allocator: &mut FrameAllocator<T>,
) -> (r: MemoryResult<MemorySet>)
    requires
        old(allocator).wf(),
        KERNEL_MAP_OFFSET <= text_start.0 <= rodata_start.0 <= data_start.0 <= bss_start.0 <= kernel_end.0
            <= memory_end_va(),
        text_start.0 % 4096 == 0,
        rodata_start.0 % 4096 == 0,
        data_start.0 % 4096 == 0,
        bss_start.0 % 4096 == 0,
        kernel_end.0 % 4096 == 0,
    ensures
        final(allocator).wf(),
        old(allocator).free_count() >= 13 + 2 * ((memory_end_va() - text_start.0) / 4096 / 512) ==> r is Ok,
        match r {
            Ok(ms) => {
                &&& ms.mapping.frames_outside(*final(allocator))
                &&& is_kernel_set(ms, text_start.0, rodata_start.0, data_start.0, bss_start.0, kernel_end.0)
                &&& ms.segments@.len() == 5
                &&& forall|s: int| 0 <= s < 5 ==> (#[trigger] ms.segments@[s]).map_type is Linear
                &&& ms.segments@[0].page_range.lo() * 4096 == text_start.0 && ms.segments@[0].page_range.hi() * 4096 == rodata_start.0
                &&& ms.segments@[1].page_range.lo() * 4096 == rodata_start.0 && ms.segments@[1].page_range.hi() * 4096 == data_start.0
                &&& ms.segments@[2].page_range.lo() * 4096 == data_start.0 && ms.segments@[2].page_range.hi() * 4096 == bss_start.0
                &&& ms.segments@[3].page_range.lo() * 4096 == bss_start.0 && ms.segments@[3].page_range.hi() * 4096 == kernel_end.0
                &&& ms.segments@[4].page_range.lo() * 4096 == kernel_end.0 && ms.segments@[4].page_range.hi() * 4096 == memory_end_va()
                &&& ms.segments@[0].flags.0 == VALID | READABLE | EXECUTABLE
                &&& ms.segments@[1].flags.0 == VALID | READABLE
                &&& ms.segments@[2].flags.0 == VALID | READABLE | WRITABLE
                &&& ms.segments@[3].flags.0 == VALID | READABLE | WRITABLE
                &&& ms.segments@[4].flags.0 == VALID | READABLE | WRITABLE
            },
            Err(e) => e == NO_FREE_FRAME && final(allocator).free_count() == 0,
        },
{
    let end = VirtualAddress(MEMORY_END_ADDRESS + KERNEL_MAP_OFFSET);
    let mut segments: Vec<Segment> = Vec::new();
    segments.push(kernel_segment(text_start, rodata_start, VALID | READABLE | EXECUTABLE));
    segments.push(kernel_segment(rodata_start, data_start, VALID | READABLE));
    segments.push(kernel_segment(data_start, bss_start, VALID | READABLE | WRITABLE));
    segments.push(kernel_segment(bss_start, kernel_end, VALID | READABLE | WRITABLE));
    segments.push(kernel_segment(kernel_end, end, VALID | READABLE | WRITABLE));
    let ghost a0 = *allocator;
    let mapping = match Mapping::new(allocator) {
        Ok(m) => m,
        Err(e) => {
            return Err(e);
        },
    };
    let mut memory_set = MemorySet { mapping, segments, allocated_pairs: Vec::new() };
    proof {
        let segs = memory_set.segments@;
        let off = (KERNEL_MAP_OFFSET / 4096) as int;
        let base = text_start.0 / 4096;
        // every page of every segment lies in [base, end / 4096)
        assert forall|s: int| 0 <= s < 5 implies {
            &&& base <= (#[trigger] segs[s]).page_range.lo()
            &&& segs[s].page_range.lo() <= segs[s].page_range.hi() <= memory_end_va() / 4096
        } by {
        }
        assert forall|s: int| 0 <= s < 5 implies crate::memory::mapping::memory_set::segment_fits(memory_set.mapping@, #[trigger] segs[s]) by {
            let sg = segs[s];
            assert(sg.page_range.size() <= 0x800_0000);
            assert(sg.linear_ok());
            assert forall|j: int| 0 <= j < sg.page_range.size() implies #[trigger] sg.linear_targets()[j] <= MAX_PPN by {
            }
        }
        assert forall|s: int, t: int| 0 <= s < t < 5 implies crate::memory::mapping::memory_set::keys_apart(#[trigger] segs[s], #[trigger] segs[t]) by {
            assert forall|i: int, j: int|
                0 <= i < segs[s].page_range.size() && 0 <= j < segs[t].page_range.size() implies #[trigger] page_key(segs[s], i)
                    != #[trigger] page_key(segs[t], j) by {
                let a = segs[s].page_range.lo() + i;
                let b = segs[t].page_range.lo() + j;
                assert(base <= a < b < memory_end_va() / 4096);
                Mapping::lemma_consecutive_keys(base as u64, (memory_end_va() / 4096 - base) as nat);
                assert(vpn_key((base + (a - base)) as u64) != vpn_key((base + (b - base)) as u64));
            }
        }
        lemma_kernel_frames(segs, base as int, (memory_end_va() / 4096) as int);
        assert((memory_end_va() - text_start.0) / 4096 == memory_end_va() / 4096 - base);
        lemma_linear_pairs_total(segs);
    }
    match memory_set.map(allocator) {
        Ok(()) => {},
        Err(e) => {
            return Err(e);
        },
    }
    Ok(memory_set)
}

/// Every address of a linear segment whose pages are all mapped translates
/// to the physical address the kernel's linear offset gives, through an entry
/// with the segment's flags: the check a kernel makes of its new page table.
pub proof fn lemma_linear_lookup(m: Mapping, seg: Segment, va: u64)
    requires
        m.wf(),
        seg.map_type is Linear,
        seg.linear_ok(),
        seg.flags.0 != 0,
        seg.page_range.lo() * 4096 <= va < seg.page_range.hi() * 4096,
        forall|j: int| 0 <= j < seg.page_range.size() ==> #[trigger] page_mapped(m@, seg, j),
    ensures
        m.lookup_spec(va) == Some(
            (
                (va - KERNEL_MAP_OFFSET) as u64,
                PageTableEntry::spec_new((va / 4096 - KERNEL_MAP_OFFSET / 4096) as u64, seg.flags.0),
            ),
        ),
        PageTableEntry::spec_new((va / 4096 - KERNEL_MAP_OFFSET / 4096) as u64, seg.flags.0).flags_spec() == seg.flags.0,
{
    let lo = seg.page_range.lo();
    let vpn = va / 4096;
    assert(lo <= vpn) by (nonlinear_arith)
        requires
            lo * 4096 <= va,
            vpn == va / 4096,
    ;
    assert(vpn < seg.page_range.hi()) by (nonlinear_arith)
        requires
            va < seg.page_range.hi() * 4096,
            vpn == va / 4096,
    ;
    let j = vpn - lo;
    assert(page_mapped(m@, seg, j));
    let p = choose|p: u64|
        #[trigger] Mapping::holds_entry(m@, page_key(seg, j), PageTableEntry::spec_new(p, seg.flags.0))
            && p <= MAX_PPN && (seg.map_type is Linear ==> p == seg.linear_targets()[j]);
    assert(p == vpn - KERNEL_MAP_OFFSET / 4096);
    lemma_spec_new(p, seg.flags.0);
    assert(page_key(seg, j) == vpn_key(vpn));
    m.lemma_lookup_mapped(va);
    let vv = va as int;
    let pp = p as int;
    assert(pp * 4096 + vv % 4096 == vv - 0xffff_ffff_0000_0000int) by (nonlinear_arith)
        requires
            pp == vv / 4096 - 0xffff_ffff_0000_0int,
            vv >= 0,
    ;
}

/// Every address of every segment of the kernel's address space translates
/// to the physical address the linear offset gives, through an entry with
/// exactly that segment's flags.
pub proof fn lemma_kernel_lookup(
    ms: MemorySet,
    text_start: u64,
    rodata_start: u64,
    data_start: u64,
    bss_start: u64,
    kernel_end: u64,
    s: int,
    va: u64,
)
    requires
        is_kernel_set(ms, text_start, rodata_start, data_start, bss_start, kernel_end),
        KERNEL_MAP_OFFSET <= text_start <= rodata_start <= data_start <= bss_start <= kernel_end <= memory_end_va(),
        text_start % 4096 == 0,
        0 <= s < 5,
        ms.segments@[s].page_range.lo() * 4096 <= va < ms.segments@[s].page_range.hi() * 4096,
    ensures
        ms.mapping.lookup_spec(va) == Some(
            (
                (va - KERNEL_MAP_OFFSET) as u64,
                PageTableEntry::spec_new((va / 4096 - KERNEL_MAP_OFFSET / 4096) as u64, ms.segments@[s].flags.0),
            ),
        ),
        PageTableEntry::spec_new((va / 4096 - KERNEL_MAP_OFFSET / 4096) as u64, ms.segments@[s].flags.0).flags_spec()
            == ms.segments@[s].flags.0,
{
    let layout = kernel_segments_spec(text_start, rodata_start, data_start, bss_start, kernel_end);
    let seg = ms.segments@[s];
    assert((1u8 | 2u8 | 8u8) != 0u8) by (bit_vector);
    assert((1u8 | 2u8) != 0u8) by (bit_vector);
    assert((1u8 | 2u8 | 4u8) != 0u8) by (bit_vector);
    assert(seg.flags.0 == layout[s].2);
    assert(seg.page_range.lo() >= text_start / 4096);
    assert(text_start / 4096 >= KERNEL_MAP_OFFSET / 4096);
    assert(seg.linear_ok());
    assert(forall|jj: int| 0 <= jj < seg.page_range.size() ==> #[trigger] page_mapped(ms.mapping@, seg, jj));
    lemma_linear_lookup(ms.mapping, seg, va);
}

/// The kernel's address space gives each section its own rights: the
/// text is readable and executable, the read-only data only readable, and
/// the data, the bss and the rest of RAM readable and writable. Every
/// address from the text to the end of RAM translates to its linear
/// physical address through an entry with exactly those rights.
pub proof fn lemma_kernel_sections(
    ms: MemorySet,
    text_start: u64,
    rodata_start: u64,
    data_start: u64,
    bss_start: u64,
    kernel_end: u64,
    va: u64,
)
    requires
        is_kernel_set(ms, text_start, rodata_start, data_start, bss_start, kernel_end),
        KERNEL_MAP_OFFSET <= text_start <= rodata_start <= data_start <= bss_start <= kernel_end <= memory_end_va(),
        text_start % 4096 == 0,
        rodata_start % 4096 == 0,
        data_start % 4096 == 0,
        bss_start % 4096 == 0,
        kernel_end % 4096 == 0,
        text_start <= va < memory_end_va(),
    ensures
        ms.segments@[0].flags.0 == VALID | READABLE | EXECUTABLE,
        ms.segments@[1].flags.0 == VALID | READABLE,
        ms.segments@[2].flags.0 == VALID | READABLE | WRITABLE,
        ms.segments@[3].flags.0 == VALID | READABLE | WRITABLE,
        ms.segments@[4].flags.0 == VALID | READABLE | WRITABLE,
        ms.mapping.lookup_spec(va) matches Some((pa, e)) && pa == va - KERNEL_MAP_OFFSET && e.flags_spec() == (
            if va < rodata_start {
                VALID | READABLE | EXECUTABLE
            } else if va < data_start {
                VALID | READABLE
            } else {
                VALID | READABLE | WRITABLE
            }),
{
    let layout = kernel_segments_spec(text_start, rodata_start, data_start, bss_start, kernel_end);
    assert(ms.segments@[0].flags.0 == layout[0].2);
    assert(ms.segments@[1].flags.0 == layout[1].2);
    assert(ms.segments@[2].flags.0 == layout[2].2);
    assert(ms.segments@[3].flags.0 == layout[3].2);
    assert(ms.segments@[4].flags.0 == layout[4].2);
    let s: int = if va < rodata_start {
        0
    } else if va < data_start {
        1
    } else if va < bss_start {
        2
    } else if va < kernel_end {
        3
    } else {
        4
    };
    let seg = ms.segments@[s];
    assert(seg.page_range.lo() * 4096 == layout[s].0 && seg.page_range.hi() * 4096 == layout[s].1) by {
        assert(seg.page_range.lo() == layout[s].0 / 4096);
        assert(seg.page_range.hi() == layout[s].1 / 4096);
        assert(memory_end_va() % 4096 == 0);
    }
    lemma_kernel_lookup(ms, text_start, rodata_start, data_start, bss_start, kernel_end, s, va);
}

/// Linear segments give back no pairs.
proof fn lemma_linear_pairs_total(segs: Seq<Segment>)
    requires
        forall|s: int| 0 <= s < segs.len() ==> (#[trigger] segs[s]).map_type is Linear,
    ensures
        crate::memory::mapping::memory_set::pairs_total(segs) == 0,
    decreases segs.len(),
{
    if segs.len() > 0 {
        let rest = segs.drop_last();
        assert forall|s: int| 0 <= s < rest.len() implies (#[trigger] rest[s]).map_type is Linear by {
            assert(rest[s] == segs[s]);
        }
        lemma_linear_pairs_total(rest);
    }
}

/// Mapping the five kernel segments, which follow each other from page
/// `base` to page `top`, takes at most twelve table frames plus two per 512
/// pages.
proof fn lemma_kernel_frames(segs: Seq<Segment>, base: int, top: int)
    requires
        segs.len() == 5,
        0 <= base,
        segs[0].page_range.lo() == base,
        forall|s: int| 0 <= s < 5 ==> (#[trigger] segs[s]).page_range.lo() <= segs[s].page_range.hi(),
        forall|s: int| 0 <= s < 4 ==> (#[trigger] segs[s]).page_range.hi() == segs[s + 1].page_range.lo(),
        segs[4].page_range.hi() == top,
        forall|s: int| 0 <= s < 5 ==> (#[trigger] segs[s]).map_type is Linear,
    ensures
        frames_total(segs) <= 12 + 2 * ((top - base) / 512),
{
    reveal_with_fuel(frames_total, 6);
    assert(segs.drop_last().drop_last().drop_last().drop_last().drop_last() =~= Seq::<Segment>::empty());
    assert forall|s: int| 0 <= s < 5 implies Mapping::frames_needed(#[trigger] segs[s]) <= 2 + 2 * (segs[s].page_range.hi() / 512
        - segs[s].page_range.lo() / 512) by {
        let lo = segs[s].page_range.lo();
        let hi = segs[s].page_range.hi();
        assert(segs[s].page_range.size() == hi - lo);
        assert(lo / 512 <= hi / 512) by (nonlinear_arith)
            requires
                0 <= lo <= hi,
        ;
        if hi > lo {
            assert((lo + (hi - lo) - 1) / 512 <= hi / 512) by (nonlinear_arith)
                requires
                    0 <= lo < hi,
            ;
        }
    }
    assert(top / 512 - base / 512 <= (top - base) / 512 + 1) by (nonlinear_arith)
        requires
            0 <= base <= top,
    ;
}

} // verus!
