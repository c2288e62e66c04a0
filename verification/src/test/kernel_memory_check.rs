//! The check that the kernel's new page table maps the kernel as the boot
//! table did: linearly, with at least the segments' permissions.
use vstd::prelude::*;
use crate::memory::address::{AddressValue, VirtualAddress, ConvertFrom};
use crate::memory::config::KERNEL_MAP_OFFSET;
use crate::memory::mapping::lemma_linear_lookup;
use crate::memory::mapping::{is_kernel_set, kernel_segments_spec, memory_end_va};
use crate::memory::mapping::memory_set::{MemorySet, va_fits};
use crate::memory::mapping::page_table_entry::{VALID, READABLE, WRITABLE};
use crate::memory::mapping::segment::Segment;

verus! {

/// Page `j` of `seg` translates to the physical address the linear offset
/// gives, through an entry with at least the segment's flags.
pub open spec fn page_checks_out(ms: MemorySet, seg: Segment, j: int) -> bool {
    let va = ((seg.page_range.lo() + j) * 4096) as u64;
    match ms.mapping.lookup_spec(va) {
        Some((pa, e)) => va >= KERNEL_MAP_OFFSET && pa == va - KERNEL_MAP_OFFSET && (e.flags_spec()
            | seg.flags.0) == e.flags_spec(),
        None => false,
    }
}

/// What `kernel_memory_check` checks: every page of the first five segments
/// checks out, and the stack pointer's page is readable and writable (and
/// nothing more).
pub open spec fn kernel_memory_ok(ms: MemorySet, sp: u64) -> bool {
    &&& forall|s: int, j: int|
        0 <= s < 5 && 0 <= j < ms.segments@[s].page_range.size() ==> #[trigger] page_checks_out(ms, ms.segments@[s], j)
    &&& match ms.mapping.lookup_spec(sp) {
        Some((_, e)) => e.flags_spec() == VALID | READABLE | WRITABLE,
        None => false,
    }
}

/// Checks the kernel's address space `memory_set` (see `kernel_memory_ok`),
/// with `sp` the current stack pointer; true when everything checks out.
pub fn kernel_memory_check(memory_set: &MemorySet, sp: VirtualAddress) -> (r: bool)
    requires
        memory_set.mapping.wf(),
        memory_set.segments@.len() >= 5,
        forall|s: int| 0 <= s < 5 ==> va_fits(#[trigger] memory_set.segments@[s]),
    ensures
        r == kernel_memory_ok(*memory_set, sp.0),
        r ==> forall|s: int, j: int|
            0 <= s < 5 && 0 <= j < memory_set.segments@[s].page_range.size() ==> (#[trigger] memory_set.mapping.lookup_spec(
                ((memory_set.segments@[s].page_range.lo() + j) * 4096) as u64,
            ) matches Some((pa, e)) && pa == ((memory_set.segments@[s].page_range.lo() + j) * 4096) as u64 - KERNEL_MAP_OFFSET
                && (e.flags_spec() | memory_set.segments@[s].flags.0) == e.flags_spec()),
        r ==> (memory_set.mapping.lookup_spec(sp.0) matches Some((_, e)) && e.flags_spec() == VALID | READABLE | WRITABLE),
{
    let mut s: usize = 0;
    while s < 5
        invariant
            s <= 5,
            memory_set.mapping.wf(),
            memory_set.segments@.len() >= 5,
            forall|t: int| 0 <= t < 5 ==> va_fits(#[trigger] memory_set.segments@[t]),
            forall|t: int, j: int|
                0 <= t < s && 0 <= j < memory_set.segments@[t].page_range.size() ==> #[trigger] page_checks_out(
                    *memory_set,
                    memory_set.segments@[t],
                    j,
                ),
        decreases 5 - s,
    {
        let segment = &memory_set.segments[s];
        let flags = segment.flags;
        let pages = segment.page_range.iter();
        let ghost seg = memory_set.segments@[s as int];
        proof {
            assert(va_fits(seg));
            assert forall|k: int| 0 <= k < pages@.len() implies (#[trigger] pages@[k]).0 == seg.page_range.lo() + k by {
                assert(pages@[k].value() == seg.page_range.lo() + k);
            }
        }
        let mut j: usize = 0;
        while j < pages.len()
            invariant
                s < 5,
                memory_set.segments@.len() >= 5,
                seg == memory_set.segments@[s as int],
                flags == seg.flags,
                va_fits(seg),
                pages@.len() == seg.page_range.size(),
                forall|k: int| 0 <= k < pages@.len() ==> (#[trigger] pages@[k]).0 == seg.page_range.lo() + k,
                j <= pages@.len(),
                memory_set.mapping.wf(),
                forall|k: int| 0 <= k < j ==> #[trigger] page_checks_out(*memory_set, seg, k),
            decreases pages@.len() - j,
        {
            let vpn = pages[j];
            proof {
                assert(vpn.0 == seg.page_range.lo() + j);
                assert(vpn.0 * 4096 <= seg.page_range.hi() * 4096) by (nonlinear_arith)
                    requires
                        vpn.0 < seg.page_range.hi(),
                ;
            }
            let va = VirtualAddress::convert_from(vpn);
            let found = memory_set.mapping.lookup(va);
            let ok = match found {
                None => false,
                Some((pa, entry)) => {
                    if va.0 < KERNEL_MAP_OFFSET || pa.0 != va.0 - KERNEL_MAP_OFFSET {
                        false
                    } else {
                        let have = entry.flags().bits();
                        have | flags.0 == have
                    }
                },
            };
            proof {
                assert(va.0 == ((seg.page_range.lo() + j) * 4096) as u64);
            }
            if !ok {
                proof {
                    assert(!page_checks_out(*memory_set, memory_set.segments@[s as int], j as int));
                }
                return false;
            }
            j = j + 1;
        }
        proof {
            assert forall|t: int, k: int|
                0 <= t < s + 1 && 0 <= k < memory_set.segments@[t].page_range.size() implies #[trigger] page_checks_out(
                    *memory_set,
                    memory_set.segments@[t],
                    k,
                ) by {
                if t == s {
                    assert(page_checks_out(*memory_set, seg, k));
                }
            }
        }
        s = s + 1;
    }
    let r = match memory_set.mapping.lookup(sp) {
        Some((_, entry)) => entry.flags().bits() == VALID | READABLE | WRITABLE,
        None => false,
    };
    proof {
        if r {
            lemma_check_means_rights(*memory_set, sp.0);
        }
    }
    r
}

/// A kernel address space that passes the check maps every page of its
/// first five segments linearly, through an entry that grants at least the
/// segment's rights, and maps the stack readable and writable.
pub proof fn lemma_check_means_rights(ms: MemorySet, sp: u64)
    requires
        kernel_memory_ok(ms, sp),
    ensures
        forall|s: int, j: int|
            0 <= s < 5 && 0 <= j < ms.segments@[s].page_range.size() ==> (#[trigger] ms.mapping.lookup_spec(
                ((ms.segments@[s].page_range.lo() + j) * 4096) as u64,
            ) matches Some((pa, e)) && pa == ((ms.segments@[s].page_range.lo() + j) * 4096) as u64 - KERNEL_MAP_OFFSET
                && (e.flags_spec() | ms.segments@[s].flags.0) == e.flags_spec()),
        ms.mapping.lookup_spec(sp) matches Some((_, e)) && e.flags_spec() == VALID | READABLE | WRITABLE,
{
    assert forall|s: int, j: int|
        0 <= s < 5 && 0 <= j < ms.segments@[s].page_range.size() implies (#[trigger] ms.mapping.lookup_spec(
            ((ms.segments@[s].page_range.lo() + j) * 4096) as u64,
        ) matches Some((pa, e)) && pa == ((ms.segments@[s].page_range.lo() + j) * 4096) as u64 - KERNEL_MAP_OFFSET
            && (e.flags_spec() | ms.segments@[s].flags.0) == e.flags_spec()) by {
        assert(page_checks_out(ms, ms.segments@[s], j));
    }
}

/// The kernel's address space as `new_kernel` builds it passes
/// `kernel_memory_check` whenever the stack pointer lies in the bss segment
/// or above it in RAM: the check the kernel makes of its new page table
/// always succeeds.
pub proof fn lemma_new_kernel_checks_out(
    ms: MemorySet,
    text_start: u64,
    rodata_start: u64,
    data_start: u64,
    bss_start: u64,
    kernel_end: u64,
    sp: u64,
)
    requires
        is_kernel_set(ms, text_start, rodata_start, data_start, bss_start, kernel_end),
        KERNEL_MAP_OFFSET <= text_start <= rodata_start <= data_start <= bss_start <= kernel_end <= memory_end_va(),
        text_start % 4096 == 0,
        rodata_start % 4096 == 0,
        data_start % 4096 == 0,
        bss_start % 4096 == 0,
        kernel_end % 4096 == 0,
        bss_start <= sp < memory_end_va(),
    ensures
        kernel_memory_ok(ms, sp),
{
    let layout = kernel_segments_spec(text_start, rodata_start, data_start, bss_start, kernel_end);
    assert((1u8 | 2u8 | 8u8) != 0u8) by (bit_vector);
    assert((1u8 | 2u8) != 0u8) by (bit_vector);
    assert((1u8 | 2u8 | 4u8) != 0u8) by (bit_vector);
    assert forall|s: int| 0 <= s < 5 implies (#[trigger] ms.segments@[s]).flags.0 != 0 by {
        assert(ms.segments@[s].flags.0 == layout[s].2);
    }
    assert forall|s: int, j: int|
        0 <= s < 5 && 0 <= j < ms.segments@[s].page_range.size() implies #[trigger] page_checks_out(ms, ms.segments@[s], j) by {
        let seg = ms.segments@[s];
        let va = ((seg.page_range.lo() + j) * 4096) as u64;
        assert(forall|jj: int| 0 <= jj < seg.page_range.size() ==> #[trigger] crate::memory::mapping::memory_set::page_mapped(ms.mapping@, seg, jj));
        assert(seg.page_range.lo() * 4096 <= va < seg.page_range.hi() * 4096) by (nonlinear_arith)
            requires
                va == (seg.page_range.lo() + j) * 4096,
                0 <= j < seg.page_range.hi() - seg.page_range.lo(),
        ;
        lemma_linear_lookup(ms.mapping, seg, va);
        let f = seg.flags.0;
        assert((f | f) == f) by (bit_vector);
    }
    let seg = if sp < kernel_end { ms.segments@[3] } else { ms.segments@[4] };
    assert(seg.page_range.lo() * 4096 <= sp < seg.page_range.hi() * 4096) by {
        if sp < kernel_end {
            assert(seg.page_range.lo() == bss_start / 4096);
            assert(seg.page_range.hi() == kernel_end / 4096);
        } else {
            assert(seg.page_range.lo() == kernel_end / 4096);
            assert(seg.page_range.hi() == memory_end_va() / 4096);
        }
    }
    lemma_linear_lookup(ms.mapping, seg, sp);
}

} // verus!
