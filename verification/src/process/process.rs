//! A process: an address space and whether it runs in user mode.
use vstd::prelude::*;
use crate::memory::mapping::mapping::tables_budget;
use crate::memory::MemoryResult;
use crate::memory::address::{VirtualAddress, vpn_key};
use crate::memory::frame::allocator::{Allocator, FrameAllocator, NO_FREE_FRAME};
use crate::memory::mapping::Flags;
use crate::memory::mapping::memory_set::{
    MemorySet, overlaps_any, va_overlap, va_fits, page_mapped, page_key,
};
use crate::memory::mapping::page_table_entry::USER;
use crate::memory::mapping::segment::{MapType, Segment};
use crate::memory::range::Range;
use crate::memory::config::KERNEL_MAP_OFFSET;
use crate::memory::mapping::{new_kernel, is_kernel_set, memory_end_va};

verus! {

/// Where the search for a free address range starts.
pub const ALLOC_BASE: u64 = 0x100_0000;

/// The largest end address of the segments (0 when there is none).
pub open spec fn max_end(segs: Seq<Segment>) -> int
    decreases segs.len(),
{
    if segs.len() == 0 {
        0
    } else {
        let rest = max_end(segs.drop_last());
        let last = segs.last().page_range.hi() * 4096;
        if rest > last {
            rest
        } else {
            last
        }
    }
}

/// No segment ends after `max_end`.
pub proof fn lemma_max_end(segs: Seq<Segment>, s: int)
    requires
        0 <= s < segs.len(),
    ensures
        segs[s].page_range.hi() * 4096 <= max_end(segs),
    decreases segs.len(),
{
    if s < segs.len() - 1 {
        lemma_max_end(segs.drop_last(), s);
        assert(segs.drop_last()[s] == segs[s]);
    }
}

/// A range that overlaps a segment starts before the last segment ends.
pub proof fn lemma_overlap_below_max(segs: Seq<Segment>, a: int, b: int)
    requires
        overlaps_any(segs, a, b),
    ensures
        a < max_end(segs),
{
    let s = choose|s: int| 0 <= s < segs.len() && #[trigger] va_overlap(segs[s], a, b);
    lemma_max_end(segs, s);
}

/// The start the search settles on: from `start`, step by `step` while the
/// range `[start, start + step)` overlaps a segment.
pub open spec fn first_free(segs: Seq<Segment>, start: int, step: int) -> int
    decreases max_end(segs) - start + step,
{
    if step > 0 && overlaps_any(segs, start, start + step) {
        proof {
            lemma_overlap_below_max(segs, start, start + step);
        }
        first_free(segs, start + step, step)
    } else {
        start
    }
}

/// The search never goes back, and where it settles nothing overlaps.
pub proof fn lemma_first_free(segs: Seq<Segment>, start: int, step: int)
    requires
        step > 0 || !overlaps_any(segs, start, start + step),
    ensures
        start <= first_free(segs, start, step),
        !overlaps_any(segs, first_free(segs, start, step), first_free(segs, start, step) + step),
    decreases max_end(segs) - start + step,
{
    if step > 0 && overlaps_any(segs, start, start + step) {
        lemma_overlap_below_max(segs, start, start + step);
        lemma_first_free(segs, start + step, step);
    }
}

/// The search settles on the first free candidate: a whole number of steps
/// above `start`, overlapping no segment, while every earlier candidate
/// overlaps some segment.
pub proof fn lemma_first_free_is_first(segs: Seq<Segment>, start: int, step: int)
    requires
        step > 0,
    ensures
        start <= first_free(segs, start, step),
        (first_free(segs, start, step) - start) % step == 0,
        !overlaps_any(segs, first_free(segs, start, step), first_free(segs, start, step) + step),
        forall|c: int| start <= c < first_free(segs, start, step) && (c - start) % step == 0 ==> #[trigger] overlaps_any(segs, c, c + step),
    decreases max_end(segs) - start + step,
{
    lemma_first_free(segs, start, step);
    if overlaps_any(segs, start, start + step) {
        lemma_overlap_below_max(segs, start, start + step);
        lemma_first_free_is_first(segs, start + step, step);
        let ff = first_free(segs, start, step);
        assert(ff == first_free(segs, start + step, step));
        vstd::arithmetic::div_mod::lemma_mod_add_multiples_vanish(ff - (start + step), step);
        assert(step + (ff - (start + step)) == ff - start);
        assert forall|c: int| start <= c < ff && (c - start) % step == 0 implies #[trigger] overlaps_any(segs, c, c + step) by {
            if c != start {
                let x = c - start;
                if x < step {
                    vstd::arithmetic::div_mod::lemma_small_mod(x as nat, step as nat);
                }
                vstd::arithmetic::div_mod::lemma_mod_sub_multiples_vanish(x, step);
                assert(-step + x == c - (start + step));
            }
        }
    } else {
        assert(first_free(segs, start, step) == start);
        assert(0int % step == 0);
    }
}

/// `size` rounded up to a whole number of pages.
pub open spec fn round_up_to_page(size: u64) -> int {
    ((size + 4095) / 4096) * 4096
}

/// Rounding up to pages gives the least whole number of pages that holds
/// `size` bytes.
pub proof fn lemma_round_up_to_page(size: u64)
    ensures
        round_up_to_page(size) % 4096 == 0,
        size <= round_up_to_page(size) < size + 4096,
{
    let r = round_up_to_page(size);
    assert(r % 4096 == 0 && size <= r < size + 4096) by (nonlinear_arith)
        requires
            r == ((size + 4095) / 4096) * 4096,
            size >= 0,
    ;
}

/// A process: whether it runs in user mode, and its address space.
pub struct Process {
    pub is_user: bool,
    pub memory_set: MemorySet,
}

impl Process {
    /// The kernel process: not a user process, with the kernel's address
    /// space (see `memory::mapping::new_kernel`). Fails with `NO_FREE_FRAME`
    /// when a table is needed and no frame is left.
    pub fn new_kernel<T: Allocator>(
        text_start: VirtualAddress,
        rodata_start: VirtualAddress,
        data_start: VirtualAddress,
        bss_start: VirtualAddress,
        kernel_end: VirtualAddress,
        allocator: &mut FrameAllocator<T>,
    ) -> (r: MemoryResult<Process>)
        requires
            old(allocator).wf(),
            KERNEL_MAP_OFFSET <= text_start.0 <= rodata_start.0 <= data_start.0 <= bss_start.0 <= kernel_end.0
                <= memory_end_va(),
            text_start.0 % 4096 == 0,
            rodata_start.0 % 4096 == 0,
            data_start.0 % 4096 == 0,
            bss_start.0 % 4096 == 0,
            kernel_end.0 % 4096 == 0,
        ensures
            final(allocator).wf(),
            old(allocator).free_count() >= 13 + 2 * ((memory_end_va() - text_start.0) / 4096 / 512) ==> r is Ok,
            match r {
                Ok(p) => {
                    &&& !p.is_user
                    &&& p.memory_set.mapping.frames_outside(*final(allocator))
                    &&& is_kernel_set(p.memory_set, text_start.0, rodata_start.0, data_start.0, bss_start.0, kernel_end.0)
                },
                Err(e) => e == NO_FREE_FRAME && final(allocator).free_count() == 0,
            },
    {
        let memory_set = match new_kernel(text_start, rodata_start, data_start, bss_start, kernel_end, allocator) {
            Ok(ms) => ms,
            Err(e) => {
                return Err(e);
            },
        };
        Ok(Process { is_user: false, memory_set })
    }

    /// The segment `alloc_page_range` adds for `size` bytes with `flags`.
    pub open spec fn new_range_segment(self, size: u64, flags: Flags) -> (int, int, u8) {
        let step = round_up_to_page(size);
        let start = first_free(self.memory_set.segments@, ALLOC_BASE as int, step);
        (start / 4096, (start + step) / 4096, flags.0 | (if self.is_user { USER } else { 0 }))
    }

    /// The segment of `alloc_page_range` carries exactly the flags asked
    /// for, plus `USER` in a user process, whatever flags are asked for.
    pub proof fn lemma_range_segment_flags(self, size: u64, flags: Flags)
        ensures
            self.new_range_segment(size, flags).2 == flags.0 | (if self.is_user { USER } else { 0u8 }),
            self.is_user ==> self.new_range_segment(size, flags).2 & USER == USER,
            !self.is_user ==> self.new_range_segment(size, flags).2 == flags.0,
    {
        let f = flags.0;
        assert((f | 0x10u8) & 0x10u8 == 0x10u8) by (bit_vector);
        assert(f | 0u8 == f) by (bit_vector);
    }

    /// Reserves `size` bytes of fresh memory: rounds `size` up to whole
    /// pages, finds the first range of that length, at `ALLOC_BASE` or a
    /// whole number of lengths above it, that overlaps no segment, and adds a
    /// framed segment there with `flags` (plus `USER` for a user process).
    /// Returns the first `size` bytes of the range. Fails with
    /// `NO_FREE_FRAME` when a frame is needed and none is left.
    pub fn alloc_page_range<T: Allocator>(&mut self, size: u64, flags: Flags, allocator: &mut FrameAllocator<T>) -> (r: MemoryResult<Range<VirtualAddress>>)
        requires
            old(self).memory_set.mapping.wf(),
            old(allocator).wf(),
            old(self).memory_set.mapping.frames_outside(*old(allocator)),
            forall|s: int| 0 <= s < old(self).memory_set.segments@.len() ==> va_fits(#[trigger] old(self).memory_set.segments@[s]),
            size + 4095 <= u64::MAX,
            round_up_to_page(size) > 0 || !overlaps_any(old(self).memory_set.segments@, ALLOC_BASE as int, ALLOC_BASE as int),
            first_free(old(self).memory_set.segments@, ALLOC_BASE as int, round_up_to_page(size)) + round_up_to_page(size) <= u64::MAX,
            round_up_to_page(size) / 4096 <= 0x800_0000,
            forall|j: int| 0 <= j < round_up_to_page(size) / 4096 ==> !old(self).memory_set.mapping@.contains_key(#[trigger] vpn_key(
                (first_free(old(self).memory_set.segments@, ALLOC_BASE as int, round_up_to_page(size)) / 4096 + j) as u64)),
        ensures
            final(self).memory_set.mapping.wf(),
            final(allocator).wf(),
            final(self).memory_set.mapping.frames_outside(*final(allocator)),
            final(self).is_user == old(self).is_user,
            forall|k: nat| #[trigger] old(self).memory_set.mapping@.contains_key(k) ==> final(self).memory_set.mapping@.contains_key(k)
                && final(self).memory_set.mapping@[k] == old(self).memory_set.mapping@[k],
            ({
                let (lo, hi, f) = old(self).new_range_segment(size, flags);
                old(allocator).free_count() >= (hi - lo) + tables_budget(lo, hi - lo)
            }) ==> r is Ok,
            ({
                let (lo, hi, f) = old(self).new_range_segment(size, flags);
                r is Ok ==> old(allocator).free_count() <= final(allocator).free_count() + (hi - lo) + tables_budget(lo, hi - lo)
            }),
            match r {
                Ok(range) => {
                    let (lo, hi, f) = old(self).new_range_segment(size, flags);
                    let seg = final(self).memory_set.segments@.last();
                    &&& range.start.0 == first_free(old(self).memory_set.segments@, ALLOC_BASE as int, round_up_to_page(size))
                    &&& range.start.0 == lo * 4096
                    &&& range.end.0 == range.start.0 + size
                    &&& !overlaps_any(old(self).memory_set.segments@, range.start.0 as int, range.start.0 + round_up_to_page(size))
                    &&& final(self).memory_set.segments@ == old(self).memory_set.segments@.push(seg)
                    &&& seg.map_type is Framed
                    &&& seg.page_range.lo() == lo
                    &&& seg.page_range.hi() == hi
                    &&& seg.flags.0 == f
                    &&& seg.flags.0 == flags.0 | (if old(self).is_user { USER } else { 0u8 })
                    &&& seg.page_range.lo() * 4096 == range.start.0
                    &&& range.end.0 <= seg.page_range.hi() * 4096 < range.end.0 + 4096
                    &&& forall|j: int| 0 <= j < hi - lo ==> #[trigger] page_mapped(final(self).memory_set.mapping@, seg, j)
                    &&& forall|k: nat| #[trigger] final(self).memory_set.mapping@.contains_key(k) ==> old(self).memory_set.mapping@.contains_key(k)
                        || exists|j: int| 0 <= j < hi - lo && k == #[trigger] page_key(seg, j)
                },
                Err(e) => {
                    let (lo, hi, f) = old(self).new_range_segment(size, flags);
                    &&& e == NO_FREE_FRAME
                    &&& final(self).memory_set.segments@ == old(self).memory_set.segments@
                    &&& final(self).memory_set.allocated_pairs@ == old(self).memory_set.allocated_pairs@
                    &&& forall|k: nat| #[trigger] final(self).memory_set.mapping@.contains_key(k) ==> old(self).memory_set.mapping@.contains_key(k)
                        || exists|j: int| 0 <= j < hi - lo && k == #[trigger] vpn_key((lo + j) as u64)
                },
            },
    {
        let ghost segs = self.memory_set.segments@;
        let alloc_size = (size + 4095) & !4095u64;
        proof {
            let x = (size + 4095) as u64;
            assert(x & !4095u64 == (x / 4096) * 4096) by (bit_vector);
            assert(alloc_size == round_up_to_page(size));
            assert(alloc_size % 4096 == 0);
            lemma_first_free(segs, ALLOC_BASE as int, alloc_size as int);
            lemma_round_up_to_page(size);
        }
        let ghost target = first_free(segs, ALLOC_BASE as int, alloc_size as int);
        let mut range: Range<VirtualAddress> = Range::from_bounds(VirtualAddress(ALLOC_BASE), VirtualAddress(ALLOC_BASE + alloc_size));
        while self.memory_set.overlap_with(range)
            invariant
                segs == self.memory_set.segments@,
                forall|s: int| 0 <= s < segs.len() ==> va_fits(#[trigger] segs[s]),
                alloc_size == round_up_to_page(size),
                alloc_size % 4096 == 0,
                alloc_size > 0 || !overlaps_any(segs, ALLOC_BASE as int, ALLOC_BASE as int),
                target == first_free(segs, ALLOC_BASE as int, alloc_size as int),
                target + alloc_size <= u64::MAX,
                first_free(segs, range.start.0 as int, alloc_size as int) == target,
                range.start.0 <= target,
                range.end.0 == range.start.0 + alloc_size,
                range.start.0 % 4096 == 0,
            decreases max_end(segs) - range.start.0 + alloc_size,
        {
            proof {
                lemma_overlap_below_max(segs, range.start.0 as int, range.end.0 as int);
                if alloc_size == 0 {
                    assert(range.start.0 == target);
                }
                lemma_first_free(segs, (range.start.0 + alloc_size) as int, alloc_size as int);
            }
            range.start = VirtualAddress(range.start.0 + alloc_size);
            range.end = VirtualAddress(range.end.0 + alloc_size);
        }
        proof {
            assert(range.start.0 == target);
        }
        let user = Flags::user(self.is_user);
        let segment = Segment { map_type: MapType::Framed, page_range: range.into(), flags: flags.union(user) };
        let ghost old_self = *self;
        proof {
            assert(segment.page_range.lo() * 4096 == target);
            assert(segment.page_range.hi() * 4096 == target + alloc_size);
            assert(segment.page_range.size() == alloc_size / 4096);
            assert forall|j: int| 0 <= j < segment.page_range.size() implies !self.memory_set.mapping@.contains_key(#[trigger] page_key(segment, j)) by {
                assert(page_key(segment, j) == vpn_key((target / 4096 + j) as u64));
            }
        }
        let added = self.memory_set.add_segment(segment, allocator);
        match added {
            Ok(()) => {},
            Err(e) => {
                proof {
                    let (lo, hi, f) = old_self.new_range_segment(size, flags);
                    assert(lo == segment.page_range.lo());
                    assert(hi - lo == segment.page_range.size());
                    assert forall|k: nat| #[trigger] self.memory_set.mapping@.contains_key(k) implies old_self.memory_set.mapping@.contains_key(k)
                        || exists|j: int| 0 <= j < hi - lo && k == #[trigger] vpn_key((lo + j) as u64) by {
                        if !old_self.memory_set.mapping@.contains_key(k) {
                            let j = choose|j: int| 0 <= j < segment.page_range.size() && k == #[trigger] page_key(segment, j);
                            assert(k == vpn_key((lo + j) as u64));
                        }
                    }
                }
                return Err(e);
            },
        }
        Ok(Range::from_bounds(range.start, VirtualAddress(range.start.0 + size)))
    }
}

} // verus!
