//! An address space together with the segments it maps and the frames it
//! took for them.
use vstd::prelude::*;
use crate::memory::MemoryResult;
use crate::memory::address::{AddressValue, VirtualAddress, VirtualPageNumber, vpn_key};
use crate::memory::frame::allocator::{Allocator, FrameAllocator, NO_FREE_FRAME};
use crate::memory::frame::frame_tracker::FrameTracker;
use crate::memory::mapping::mapping::Mapping;
use crate::memory::mapping::page_table_entry::{PageTableEntry, MAX_PPN};
use crate::memory::mapping::segment::Segment;
use crate::memory::range::Range;

verus! {

/// The key of page `j` of `seg`.
pub open spec fn page_key(seg: Segment, j: int) -> nat {
    vpn_key((seg.page_range.lo() + j) as u64)
}

/// Page `j` of `seg` is mapped in `m` with the segment's flags, to its linear
/// frame when the segment is linear.
pub open spec fn page_mapped(m: Map<nat, PageTableEntry>, seg: Segment, j: int) -> bool {
    exists|p: u64|
        #[trigger] Mapping::holds_entry(m, page_key(seg, j), PageTableEntry::spec_new(p, seg.flags.0))
            && p <= MAX_PPN && (seg.map_type is Linear ==> p == seg.linear_targets()[j])
}

/// `seg` can be mapped on top of `m`: it spans at most 2^27 pages, a linear
/// segment lies in the linear region with frames that fit an entry, and none
/// of its pages is mapped in `m` yet.
pub open spec fn segment_fits(m: Map<nat, PageTableEntry>, seg: Segment) -> bool {
    &&& seg.page_range.size() <= 0x800_0000
    &&& seg.map_type is Linear ==> seg.linear_ok()
    &&& seg.map_type is Linear ==> forall|j: int|
        0 <= j < seg.page_range.size() ==> #[trigger] seg.linear_targets()[j] <= MAX_PPN
    &&& forall|j: int| 0 <= j < seg.page_range.size() ==> !m.contains_key(#[trigger] page_key(seg, j))
}

/// `pairs` is what mapping `seg` gives back, read against the translation
/// `m` after it: nothing for a linear segment; for a framed one, each page of
/// the segment in order, with the frame `m` maps that page to.
pub open spec fn pairs_of(seg: Segment, pairs: Seq<(VirtualPageNumber, FrameTracker)>, m: Map<nat, PageTableEntry>) -> bool {
    if seg.map_type is Linear {
        pairs.len() == 0
    } else {
        &&& pairs.len() == seg.page_range.size()
        &&& forall|j: int| 0 <= j < pairs.len() ==> (#[trigger] pairs[j]).0.0 == seg.page_range.lo() + j
            && Mapping::holds_entry(m, page_key(seg, j), PageTableEntry::spec_new(pairs[j].1.0.0, seg.flags.0))
    }
}

/// How many pairs mapping `seg` gives back: one per page of a framed segment.
pub open spec fn pair_count(seg: Segment) -> nat {
    if seg.map_type is Framed {
        seg.page_range.size()
    } else {
        0
    }
}

/// How many pairs mapping the segments of `segs` in turn gives back.
pub open spec fn pairs_total(segs: Seq<Segment>) -> nat
    decreases segs.len(),
{
    if segs.len() == 0 {
        0
    } else {
        pairs_total(segs.drop_last()) + pair_count(segs.last())
    }
}

/// The pairs of segment `s` of `segs` in `all`, where mapping the segments
/// in turn appended their pairs after the first `base` ones.
pub open spec fn segment_pairs(
    all: Seq<(VirtualPageNumber, FrameTracker)>,
    base: nat,
    segs: Seq<Segment>,
    s: int,
) -> Seq<(VirtualPageNumber, FrameTracker)> {
    all.subrange((base + pairs_total(segs.take(s))) as int, (base + pairs_total(segs.take(s + 1))) as int)
}

/// No page of `a` shares a key with a page of `b`.
pub open spec fn keys_apart(a: Segment, b: Segment) -> bool {
    forall|i: int, j: int|
        0 <= i < a.page_range.size() && 0 <= j < b.page_range.size() ==> #[trigger] page_key(a, i)
            != #[trigger] page_key(b, j)
}

/// The most frames mapping the segments of `segs` in turn can take.
pub open spec fn frames_total(segs: Seq<Segment>) -> int
    decreases segs.len(),
{
    if segs.len() == 0 {
        0
    } else {
        frames_total(segs.drop_last()) + Mapping::frames_needed(segs.last())
    }
}

/// Whether address `v` lies in the pages of `seg`.
pub open spec fn seg_holds(seg: Segment, v: int) -> bool {
    seg.page_range.lo() * 4096 <= v < seg.page_range.hi() * 4096
}

/// A range with addresses in it overlaps a segment with pages in it exactly
/// when some address lies in both: the overlap test sees ranges that run
/// into a segment from below as well as ranges that start inside it.
pub proof fn lemma_overlap_iff_common_address(segs: Seq<Segment>, a: int, b: int)
    requires
        a < b,
        forall|s: int| 0 <= s < segs.len() ==> (#[trigger] segs[s]).page_range.lo() < segs[s].page_range.hi(),
    ensures
        overlaps_any(segs, a, b) <==> exists|s: int, v: int| 0 <= s < segs.len() && a <= v < b
            && #[trigger] seg_holds(segs[s], v),
{
    if overlaps_any(segs, a, b) {
        let s = choose|s: int| 0 <= s < segs.len() && #[trigger] va_overlap(segs[s], a, b);
        let lo = segs[s].page_range.lo() * 4096;
        let v = if a < lo { lo } else { a };
        assert(segs[s].page_range.lo() * 4096 < segs[s].page_range.hi() * 4096) by (nonlinear_arith)
            requires
                segs[s].page_range.lo() < segs[s].page_range.hi(),
        ;
        assert(a <= v < b && seg_holds(segs[s], v));
    }
    if exists|s: int, v: int| 0 <= s < segs.len() && a <= v < b && #[trigger] seg_holds(segs[s], v) {
        let (s, v) = choose|s: int, v: int| 0 <= s < segs.len() && a <= v < b && #[trigger] seg_holds(segs[s], v);
        assert(va_overlap(segs[s], a, b));
    }
}

/// The address space of a process: its page tables, its segments, and the
/// frames taken for its framed pages.
pub struct MemorySet {
    pub mapping: Mapping,
    pub segments: Vec<Segment>,
    pub allocated_pairs: Vec<(VirtualPageNumber, FrameTracker)>,
}

/// Range `[a, b)` of virtual addresses overlaps the addresses of `seg`.
pub open spec fn va_overlap(seg: Segment, a: int, b: int) -> bool {
    a < seg.page_range.hi() * 4096 && b > seg.page_range.lo() * 4096
}

/// Range `[a, b)` of virtual addresses overlaps some segment of `segs`.
pub open spec fn overlaps_any(segs: Seq<Segment>, a: int, b: int) -> bool {
    exists|s: int| 0 <= s < segs.len() && #[trigger] va_overlap(segs[s], a, b)
}

/// The addresses of `seg` are 64-bit addresses.
pub open spec fn va_fits(seg: Segment) -> bool {
    seg.page_range.lo() * 4096 <= u64::MAX && seg.page_range.hi() * 4096 <= u64::MAX
}

impl MemorySet {
    /// The value to write into `satp` to switch to this address space.
    pub fn flush(&self) -> (r: u64)
        ensures
            r == crate::memory::mapping::mapping::satp_value(self.mapping.root()),
    {
        self.mapping.flush()
    }

    /// Whether `range` overlaps the addresses of some segment.
    pub fn overlap_with(&self, range: Range<VirtualAddress>) -> (r: bool)
        requires
            forall|s: int| 0 <= s < self.segments@.len() ==> va_fits(#[trigger] self.segments@[s]),
        ensures
            r == overlaps_any(self.segments@, range.lo(), range.hi()),
            r <==> exists|s: int| 0 <= s < self.segments@.len() && range.lo() < (#[trigger] self.segments@[s]).page_range.hi() * 4096
                && range.hi() > self.segments@[s].page_range.lo() * 4096,
            forall|s: int, v: int| 0 <= s < self.segments@.len() && range.lo() <= v < range.hi()
                && #[trigger] seg_holds(self.segments@[s], v) ==> r,
    {
        let mut i: usize = 0;
        while i < self.segments.len()
            invariant
                i <= self.segments@.len(),
                forall|s: int| 0 <= s < self.segments@.len() ==> va_fits(#[trigger] self.segments@[s]),
                forall|s: int| 0 <= s < i ==> !#[trigger] va_overlap(self.segments@[s], range.lo(), range.hi()),
            decreases self.segments@.len() - i,
        {
            let segment = &self.segments[i];
            proof {
                assert(va_fits(self.segments@[i as int]));
            }
            let seg_range: Range<VirtualAddress> = segment.page_range.into();
            if range.overlap_with(&seg_range) {
                proof {
                    assert(va_overlap(self.segments@[i as int], range.lo(), range.hi()));
                }
                return true;
            }
            i = i + 1;
        }
        proof {
            assert forall|s: int| 0 <= s < self.segments@.len() implies !(range.lo() < (#[trigger] self.segments@[s]).page_range.hi() * 4096
                && range.hi() > self.segments@[s].page_range.lo() * 4096) by {
                assert(!va_overlap(self.segments@[s], range.lo(), range.hi()));
            }
            assert forall|s: int, v: int| 0 <= s < self.segments@.len() && range.lo() <= v < range.hi()
                implies !#[trigger] seg_holds(self.segments@[s], v) by {
                assert(!va_overlap(self.segments@[s], range.lo(), range.hi()));
            }
        }
        false
    }

    /// Maps `segment`, which must not overlap the addresses of any segment
    /// held and whose pages must not be mapped yet, then holds it and appends
    /// the pages and frames mapping gave back. Fails with `NO_FREE_FRAME` when
    /// a frame is needed and none is left; the segment is then not held.
    pub fn add_segment<T: Allocator>(&mut self, segment: Segment, allocator: &mut FrameAllocator<T>) -> (r: MemoryResult<()>)
        requires
            old(self).mapping.wf(),
            old(allocator).wf(),
            old(self).mapping.frames_outside(*old(allocator)),
            forall|s: int| 0 <= s < old(self).segments@.len() ==> va_fits(#[trigger] old(self).segments@[s]),
            va_fits(segment),
            !overlaps_any(old(self).segments@, segment.page_range.lo() * 4096, segment.page_range.hi() * 4096),
            segment_fits(old(self).mapping@, segment),
        ensures
            final(self).mapping.wf(),
            final(allocator).wf(),
            final(self).mapping.frames_outside(*final(allocator)),
            final(self).mapping.root() == old(self).mapping.root(),
            forall|k: nat| #[trigger] old(self).mapping@.contains_key(k) ==> final(self).mapping@.contains_key(k) && final(self).mapping@[k] == old(self).mapping@[k],
            forall|j: int| 0 <= j < old(self).allocated_pairs@.len() ==> #[trigger] final(self).allocated_pairs@[j] == old(self).allocated_pairs@[j],
            final(self).allocated_pairs@.len() >= old(self).allocated_pairs@.len(),
            old(allocator).free_count() >= Mapping::frames_needed(segment) ==> r is Ok,
            r is Ok ==> old(allocator).free_count() <= final(allocator).free_count() + Mapping::frames_needed(segment),
            match r {
                Ok(()) => {
                    &&& pairs_of(segment, final(self).allocated_pairs@.skip(old(self).allocated_pairs@.len() as int), final(self).mapping@)
                    &&& forall|j: int| old(self).allocated_pairs@.len() <= j < final(self).allocated_pairs@.len() ==> {
                        let p = (#[trigger] final(self).allocated_pairs@[j]).1.0.0;
                        &&& old(allocator).free_frames().contains(p)
                        &&& !final(allocator).free_frames().contains(p)
                    }
                    &&& final(self).segments@ == old(self).segments@.push(segment)
                    &&& forall|j: int| 0 <= j < segment.page_range.size() ==> #[trigger] page_mapped(final(self).mapping@, segment, j)
                    &&& forall|k: nat| #[trigger] final(self).mapping@.contains_key(k) ==> old(self).mapping@.contains_key(k)
                        || exists|j: int| 0 <= j < segment.page_range.size() && k == #[trigger] page_key(segment, j)
                },
                Err(e) => {
                    &&& e == NO_FREE_FRAME
                    &&& final(self).segments@ == old(self).segments@
                    &&& final(self).allocated_pairs@ == old(self).allocated_pairs@
                    &&& forall|k: nat| #[trigger] final(self).mapping@.contains_key(k) ==> old(self).mapping@.contains_key(k)
                        || exists|j: int| 0 <= j < segment.page_range.size() && k == #[trigger] page_key(segment, j)
                },
            },
    {
        let ghost before = self.mapping@;
        let ghost a0 = *allocator;
        let ghost lo = segment.page_range.lo() as u64;
        let ghost size = segment.page_range.size();
        proof {
            assert forall|j: int| 0 <= j < size implies !before.contains_key(#[trigger] vpn_key((segment.page_range.lo() + j) as u64)) by {
                assert(page_key(segment, j) == vpn_key((segment.page_range.lo() + j) as u64));
            }
        }
        let mut pairs = match self.mapping.map(&segment, allocator) {
            Ok(pairs) => pairs,
            Err(e) => {
                proof {
                    assert forall|k: nat| #[trigger] self.mapping@.contains_key(k) implies before.contains_key(k)
                        || exists|j: int| 0 <= j < segment.page_range.size() && k == #[trigger] page_key(segment, j) by {
                        if !before.contains_key(k) {
                            let j = choose|j: int| 0 <= j < segment.page_range.size() && k == #[trigger] vpn_key((segment.page_range.lo() as u64 + j) as u64);
                            assert(k == page_key(segment, j));
                        }
                    }
                }
                return Err(e);
            },
        };
        proof {
            let ghost targets = if segment.map_type is Linear { segment.linear_targets() } else { Mapping::frames_of(pairs@) };
            Mapping::lemma_consecutive_keys(lo, size);
            if size > 0 {
                assert(lo + size == segment.page_range.hi());
            }
            assert(targets.len() == size);
            assert forall|j: int| 0 <= j < size implies #[trigger] targets[j] <= MAX_PPN by {
                if segment.map_type is Framed {
                    a0.lemma_free_frame(pairs@[j].1.0.0);
                }
            }
            Mapping::lemma_run_keys(before, lo, targets, segment.flags.0);
            Mapping::lemma_run_values(before, lo, targets, segment.flags.0);
            assert forall|j: int| 0 <= j < size implies #[trigger] page_mapped(self.mapping@, segment, j) by {
                let k = vpn_key((lo + j) as u64);
                assert(Mapping::holds_entry(self.mapping@, k, PageTableEntry::spec_new(targets[j], segment.flags.0)));
                assert(page_key(segment, j) == k);
                assert(Mapping::holds_entry(self.mapping@, page_key(segment, j), PageTableEntry::spec_new(targets[j], segment.flags.0)));
                assert(targets[j] <= MAX_PPN);
            }
            assert forall|k: nat| #[trigger] self.mapping@.contains_key(k) implies before.contains_key(k)
                || exists|j: int| 0 <= j < size && k == #[trigger] page_key(segment, j) by {
                if !before.contains_key(k) {
                    let jj = choose|jj: int| 0 <= jj < size && k == #[trigger] vpn_key((lo + jj) as u64);
                    assert(k == page_key(segment, jj));
                }
            }
        }
        let ghost before_pairs = self.allocated_pairs@;
        let ghost added = pairs@;
        proof {
            if segment.map_type is Framed {
                assert forall|j: int| 0 <= j < added.len() implies (#[trigger] added[j]).0.0 == segment.page_range.lo() + j
                    && Mapping::holds_entry(self.mapping@, page_key(segment, j), PageTableEntry::spec_new(added[j].1.0.0, segment.flags.0)) by {
                    Mapping::lemma_run_values(before, lo, Mapping::frames_of(pairs@), segment.flags.0);
                    assert(Mapping::frames_of(pairs@)[j] == added[j].1.0.0);
                    assert(page_key(segment, j) == vpn_key((lo + j) as u64));
                }
            }
        }
        self.allocated_pairs.append(&mut pairs);
        proof {
            assert forall|j: int| 0 <= j < before_pairs.len() implies #[trigger] self.allocated_pairs@[j] == before_pairs[j] by {
            }
            assert(self.allocated_pairs@.skip(before_pairs.len() as int) =~= added);
            assert forall|j: int| before_pairs.len() <= j < self.allocated_pairs@.len() implies {
                let p = (#[trigger] self.allocated_pairs@[j]).1.0.0;
                &&& a0.free_frames().contains(p)
                &&& !allocator.free_frames().contains(p)
            } by {
                assert(self.allocated_pairs@[j] == added[j - before_pairs.len()]);
            }
        }
        self.segments.push(segment);
        Ok(())
    }

    /// Maps every segment in turn, appending the pages and frames each gives
    /// back. The segments must fit the current translation and be apart from
    /// each other. Fails with `NO_FREE_FRAME` at the first segment that finds
    /// no frame left; the segments after it stay unmapped.
    #[verifier::rlimit(50)]
    #[verifier::spinoff_prover]
    pub fn map<T: Allocator>(&mut self, allocator: &mut FrameAllocator<T>) -> (r: MemoryResult<()>)
        requires
            old(self).mapping.wf(),
            old(allocator).wf(),
            old(self).mapping.frames_outside(*old(allocator)),
            forall|s: int| 0 <= s < old(self).segments@.len() ==> segment_fits(old(self).mapping@, #[trigger] old(self).segments@[s]),
            forall|s: int, t: int|
                0 <= s < t < old(self).segments@.len() ==> keys_apart(#[trigger] old(self).segments@[s], #[trigger] old(self).segments@[t]),
        ensures
            final(self).mapping.wf(),
            final(allocator).wf(),
            final(self).mapping.frames_outside(*final(allocator)),
            final(self).mapping.root() == old(self).mapping.root(),
            final(self).segments@ == old(self).segments@,
            final(self).allocated_pairs@.len() >= old(self).allocated_pairs@.len(),
            forall|j: int| 0 <= j < old(self).allocated_pairs@.len() ==> #[trigger] final(self).allocated_pairs@[j] == old(self).allocated_pairs@[j],
            forall|k: nat| #[trigger] old(self).mapping@.contains_key(k) ==> final(self).mapping@.contains_key(k) && final(self).mapping@[k] == old(self).mapping@[k],
            old(allocator).free_count() >= frames_total(old(self).segments@) ==> r is Ok,
            match r {
                Ok(()) => {
                    &&& final(self).allocated_pairs@.len() == old(self).allocated_pairs@.len() + pairs_total(old(self).segments@)
                    &&& forall|s: int| 0 <= s < old(self).segments@.len() ==> pairs_of(
                        #[trigger] old(self).segments@[s],
                        segment_pairs(final(self).allocated_pairs@, old(self).allocated_pairs@.len(), old(self).segments@, s),
                        final(self).mapping@,
                    )
                    &&& forall|s: int, j: int|
                        0 <= s < final(self).segments@.len() && 0 <= j < final(self).segments@[s].page_range.size()
                            ==> #[trigger] page_mapped(final(self).mapping@, final(self).segments@[s], j)
                    &&& forall|k: nat| #[trigger] final(self).mapping@.contains_key(k) ==> old(self).mapping@.contains_key(k)
                        || exists|s: int, j: int|
                        0 <= s < final(self).segments@.len() && 0 <= j < final(self).segments@[s].page_range.size()
                            && k == #[trigger] page_key(final(self).segments@[s], j)
                },
                Err(e) => {
                    &&& e == NO_FREE_FRAME
                    &&& (forall|s: int| 0 <= s < old(self).segments@.len() ==> (#[trigger] old(self).segments@[s]).map_type is Linear)
                        ==> final(allocator).free_count() == 0
                    &&& exists|f: int| {
                        &&& 0 <= f < old(self).segments@.len()
                        &&& final(self).allocated_pairs@.len() == old(self).allocated_pairs@.len() + pairs_total(old(self).segments@.take(f))
                        &&& forall|s: int| 0 <= s < f ==> pairs_of(
                            #[trigger] old(self).segments@[s],
                            segment_pairs(final(self).allocated_pairs@, old(self).allocated_pairs@.len(), old(self).segments@, s),
                            final(self).mapping@,
                        )
                        &&& forall|t: int, j: int| f < t < old(self).segments@.len() && 0 <= j < old(self).segments@[t].page_range.size()
                            ==> !final(self).mapping@.contains_key(#[trigger] page_key(old(self).segments@[t], j))
                    }
                },
            },
    {
        let ghost old_map = self.mapping@;
        let ghost segs = self.segments@;
        let ghost old_pairs = self.allocated_pairs@;
        let ghost old_alloc = *allocator;
        let mut i: usize = 0;
        while i < self.segments.len()
            invariant
                segs == self.segments@,
                old_map == old(self).mapping@,
                old_pairs == old(self).allocated_pairs@,
                old_alloc == *old(allocator),
                segs == old(self).segments@,
                i <= segs.len(),
                self.mapping.wf(),
                allocator.wf(),
                self.mapping.frames_outside(*allocator),
                self.mapping.root() == old(self).mapping.root(),
                forall|s: int| 0 <= s < segs.len() ==> segment_fits(old_map, #[trigger] segs[s]),
                forall|s: int, t: int| 0 <= s < t < segs.len() ==> keys_apart(#[trigger] segs[s], #[trigger] segs[t]),
                self.allocated_pairs@.len() >= old_pairs.len(),
                forall|j: int| 0 <= j < old_pairs.len() ==> #[trigger] self.allocated_pairs@[j] == old_pairs[j],
                forall|k: nat| #[trigger] old_map.contains_key(k) ==> self.mapping@.contains_key(k) && self.mapping@[k] == old_map[k],
                forall|s: int, j: int|
                    0 <= s < i && 0 <= j < segs[s].page_range.size() ==> #[trigger] page_mapped(self.mapping@, segs[s], j),
                forall|k: nat| #[trigger] self.mapping@.contains_key(k) ==> old_map.contains_key(k)
                    || exists|s: int, j: int| 0 <= s < i && 0 <= j < segs[s].page_range.size() && k == #[trigger] page_key(segs[s], j),
                old_alloc.free_count() <= allocator.free_count() + frames_total(segs.take(i as int)),
                self.allocated_pairs@.len() == old_pairs.len() + pairs_total(segs.take(i as int)),
                forall|s: int| 0 <= s < i ==> pairs_of(
                    #[trigger] segs[s],
                    segment_pairs(self.allocated_pairs@, old_pairs.len(), segs, s),
                    self.mapping@,
                ),
            decreases segs.len() - i,
        {
            let ghost before = self.mapping@;
            let ghost a0 = *allocator;
            let seg = &self.segments[i];
            let ghost sg = segs[i as int];
            let ghost lo = sg.page_range.lo() as u64;
            let ghost size = sg.page_range.size();
            proof {
                assert(segment_fits(old_map, sg));
                assert forall|j: int| 0 <= j < size implies !before.contains_key(#[trigger] vpn_key((sg.page_range.lo() + j) as u64)) by {
                    let k = vpn_key((sg.page_range.lo() + j) as u64);
                    assert(page_key(sg, j) == k);
                    if before.contains_key(k) {
                        if !old_map.contains_key(k) {
                            let (s, jj) = choose|s: int, jj: int| 0 <= s < i && 0 <= jj < segs[s].page_range.size() && k == #[trigger] page_key(segs[s], jj);
                            assert(keys_apart(segs[s], segs[i as int]));
                            assert(page_key(segs[s], jj) != page_key(segs[i as int], j));
                        }
                    }
                }
                // the counts left cover this segment
                lemma_frames_total_step(segs, i as int);
                lemma_frames_total_prefix(segs, i as int + 1);
            }
            let result = self.mapping.map(seg, allocator);
            let mut pairs = match result {
                Ok(pairs) => pairs,
                Err(e) => {
                    proof {
                        assert forall|k: nat| #[trigger] old_map.contains_key(k) implies self.mapping@.contains_key(k) && self.mapping@[k] == old_map[k] by {
                            assert(before.contains_key(k));
                        }
                        let m = self.mapping@;
                        assert forall|k: nat| #[trigger] m.contains_key(k) implies before.contains_key(k)
                            || exists|j: int| 0 <= j < sg.page_range.size() && k == #[trigger] page_key(sg, j) by {
                            if !before.contains_key(k) {
                                let j = choose|j: int| 0 <= j < sg.page_range.size() && k == #[trigger] vpn_key((sg.page_range.lo() as u64 + j) as u64);
                                assert(k == page_key(sg, j));
                            }
                        }
                        lemma_failed_at(segs, old_map, before, m, self.allocated_pairs@, old_pairs.len(), i as int);
                        assert(sg.map_type is Linear ==> allocator.free_count() == 0);
                        assert(segs[i as int] == sg);
                    }
                    return Err(e);
                },
            };
            proof {
                let ghost targets = if sg.map_type is Linear { sg.linear_targets() } else { Mapping::frames_of(pairs@) };
                Mapping::lemma_consecutive_keys(lo, size);
                if size > 0 {
                    assert(lo + size == sg.page_range.hi());
                }
                assert(targets.len() == size);
                assert forall|j: int| 0 <= j < size implies #[trigger] targets[j] <= MAX_PPN by {
                    if sg.map_type is Framed {
                        a0.lemma_free_frame(pairs@[j].1.0.0);
                    }
                }
                Mapping::lemma_run_keys(before, lo, targets, sg.flags.0);
                Mapping::lemma_run_values(before, lo, targets, sg.flags.0);
                assert forall|j: int| 0 <= j < size implies #[trigger] page_mapped(self.mapping@, segs[i as int], j) by {
                    let k = vpn_key((lo + j) as u64);
                    assert(Mapping::holds_entry(self.mapping@, k, PageTableEntry::spec_new(targets[j], sg.flags.0)));
                    assert(page_key(sg, j) == k);
                    assert(Mapping::holds_entry(self.mapping@, page_key(sg, j), PageTableEntry::spec_new(targets[j], sg.flags.0)));
                    assert(targets[j] <= MAX_PPN);
                    assert(sg.map_type is Linear ==> targets[j] == sg.linear_targets()[j]);
                }
                assert forall|s: int, j: int|
                    0 <= s < i + 1 && 0 <= j < segs[s].page_range.size() implies #[trigger] page_mapped(self.mapping@, segs[s], j) by {
                    if s < i {
                        assert(page_mapped(before, segs[s], j));
                        let p = choose|p: u64|
                            #[trigger] Mapping::holds_entry(before, page_key(segs[s], j), PageTableEntry::spec_new(p, segs[s].flags.0))
                                && p <= MAX_PPN && (segs[s].map_type is Linear ==> p == segs[s].linear_targets()[j]);
                        crate::memory::mapping::mapping::lemma_entry_empty(p, segs[s].flags.0);
                        if before.contains_key(page_key(segs[s], j)) {
                        } else {
                            let k = page_key(segs[s], j);
                            if self.mapping@.contains_key(k) {
                                let jj = choose|jj: int| 0 <= jj < size && k == #[trigger] vpn_key((lo + jj) as u64);
                                assert(keys_apart(segs[s], segs[i as int]));
                                assert(page_key(segs[i as int], jj) == k);
                            }
                        }
                        assert(Mapping::holds_entry(self.mapping@, page_key(segs[s], j), PageTableEntry::spec_new(p, segs[s].flags.0)));
                    }
                }
                assert forall|k: nat| #[trigger] self.mapping@.contains_key(k) implies old_map.contains_key(k)
                    || exists|s: int, j: int| 0 <= s < i + 1 && 0 <= j < segs[s].page_range.size() && k == #[trigger] page_key(segs[s], j) by {
                    if !before.contains_key(k) {
                        let jj = choose|jj: int| 0 <= jj < size && k == #[trigger] vpn_key((lo + jj) as u64);
                        assert(k == page_key(segs[i as int], jj));
                    } else if !old_map.contains_key(k) {
                        let (s, jj) = choose|s: int, jj: int| 0 <= s < i && 0 <= jj < segs[s].page_range.size() && k == #[trigger] page_key(segs[s], jj);
                        assert(k == page_key(segs[s], jj));
                    }
                }
                assert forall|k: nat| #[trigger] old_map.contains_key(k) implies self.mapping@.contains_key(k) && self.mapping@[k] == old_map[k] by {
                    assert(before.contains_key(k));
                }
            }
            let ghost before_pairs = self.allocated_pairs@;
            let ghost added = pairs@;
            proof {
                let m = self.mapping@;
                assert forall|k: nat| #[trigger] m.contains_key(k) implies before.contains_key(k)
                    || exists|j: int| 0 <= j < sg.page_range.size() && k == #[trigger] page_key(sg, j) by {
                    if !before.contains_key(k) {
                        let jj = choose|jj: int| 0 <= jj < size && k == #[trigger] vpn_key((lo + jj) as u64);
                        assert(k == page_key(sg, jj));
                    }
                }
                if sg.map_type is Framed {
                    assert forall|j: int| 0 <= j < added.len() implies (#[trigger] added[j]).0.0 == sg.page_range.lo() + j
                        && Mapping::holds_entry(m, page_key(sg, j), PageTableEntry::spec_new(added[j].1.0.0, sg.flags.0)) by {
                        assert(Mapping::frames_of(added)[j] == added[j].1.0.0);
                        assert(page_key(sg, j) == vpn_key((lo + j) as u64));
                    }
                }
                assert(pairs_of(sg, added, m));
            }
            self.allocated_pairs.append(&mut pairs);
            proof {
                assert forall|j: int| 0 <= j < old_pairs.len() implies #[trigger] self.allocated_pairs@[j] == old_pairs[j] by {
                    assert(self.allocated_pairs@[j] == before_pairs[j]);
                }
                assert(self.allocated_pairs@ =~= before_pairs + added);
                lemma_mapped_next(segs, before, self.mapping@, before_pairs, added, old_pairs.len(), i as int);
            }
            i = i + 1;
        }
        proof {
            assert(segs.take(segs.len() as int) =~= segs);
        }
        Ok(())
    }
}

/// Mapping segment `i` failed: the earlier segments keep their pairs, and
/// no page of a later segment is mapped.
proof fn lemma_failed_at(
    segs: Seq<Segment>,
    old_map: Map<nat, PageTableEntry>,
    before: Map<nat, PageTableEntry>,
    m: Map<nat, PageTableEntry>,
    all: Seq<(VirtualPageNumber, FrameTracker)>,
    base: nat,
    i: int,
)
    requires
        0 <= i < segs.len(),
        forall|s: int| 0 <= s < segs.len() ==> segment_fits(old_map, #[trigger] segs[s]),
        forall|s: int, t: int| 0 <= s < t < segs.len() ==> keys_apart(#[trigger] segs[s], #[trigger] segs[t]),
        all.len() == base + pairs_total(segs.take(i)),
        forall|s: int| 0 <= s < i ==> pairs_of(#[trigger] segs[s], segment_pairs(all, base, segs, s), before),
        forall|k: nat| #[trigger] before.contains_key(k) ==> old_map.contains_key(k)
            || exists|s: int, j: int| 0 <= s < i && 0 <= j < segs[s].page_range.size() && k == #[trigger] page_key(segs[s], j),
        forall|k: nat| #[trigger] before.contains_key(k) ==> m.contains_key(k) && m[k] == before[k],
        forall|k: nat| #[trigger] m.contains_key(k) ==> before.contains_key(k)
            || exists|j: int| 0 <= j < segs[i].page_range.size() && k == #[trigger] page_key(segs[i], j),
    ensures
        exists|f: int| {
            &&& 0 <= f < segs.len()
            &&& all.len() == base + pairs_total(segs.take(f))
            &&& forall|s: int| 0 <= s < f ==> pairs_of(#[trigger] segs[s], segment_pairs(all, base, segs, s), m)
            &&& forall|t: int, j: int| f < t < segs.len() && 0 <= j < segs[t].page_range.size()
                ==> !m.contains_key(#[trigger] page_key(segs[t], j))
        },
{
    assert forall|s: int| 0 <= s < i implies pairs_of(#[trigger] segs[s], segment_pairs(all, base, segs, s), m) by {
        assert(keys_apart(segs[s], segs[i]));
        lemma_pairs_kept(segs[s], segment_pairs(all, base, segs, s), before, m, segs[i]);
    }
    assert forall|t: int, j: int| i < t < segs.len() && 0 <= j < segs[t].page_range.size()
        implies !m.contains_key(#[trigger] page_key(segs[t], j)) by {
        let k = page_key(segs[t], j);
        assert(segment_fits(old_map, segs[t]));
        assert(!old_map.contains_key(k));
        if m.contains_key(k) {
            if before.contains_key(k) {
                let (s2, jj) = choose|s2: int, jj: int| 0 <= s2 < i && 0 <= jj < segs[s2].page_range.size() && k == #[trigger] page_key(segs[s2], jj);
                assert(keys_apart(segs[s2], segs[t]));
            } else {
                let jj = choose|jj: int| 0 <= jj < segs[i].page_range.size() && k == #[trigger] page_key(segs[i], jj);
                assert(keys_apart(segs[i], segs[t]));
            }
        }
    }
}

/// Mapping segment `i` appended `added`: every segment up to `i` reads its
/// pairs from the longer list.
proof fn lemma_mapped_next(
    segs: Seq<Segment>,
    before: Map<nat, PageTableEntry>,
    m: Map<nat, PageTableEntry>,
    before_pairs: Seq<(VirtualPageNumber, FrameTracker)>,
    added: Seq<(VirtualPageNumber, FrameTracker)>,
    base: nat,
    i: int,
)
    requires
        0 <= i < segs.len(),
        forall|s: int, t: int| 0 <= s < t < segs.len() ==> keys_apart(#[trigger] segs[s], #[trigger] segs[t]),
        before_pairs.len() == base + pairs_total(segs.take(i)),
        forall|s: int| 0 <= s < i ==> pairs_of(#[trigger] segs[s], segment_pairs(before_pairs, base, segs, s), before),
        forall|k: nat| #[trigger] before.contains_key(k) ==> m.contains_key(k) && m[k] == before[k],
        forall|k: nat| #[trigger] m.contains_key(k) ==> before.contains_key(k)
            || exists|j: int| 0 <= j < segs[i].page_range.size() && k == #[trigger] page_key(segs[i], j),
        pairs_of(segs[i], added, m),
    ensures
        (before_pairs + added).len() == base + pairs_total(segs.take(i + 1)),
        forall|s: int| 0 <= s < i + 1 ==> pairs_of(#[trigger] segs[s], segment_pairs(before_pairs + added, base, segs, s), m),
{
    lemma_pairs_total_step(segs, i);
    let all = before_pairs + added;
    assert forall|s: int| 0 <= s < i + 1 implies pairs_of(#[trigger] segs[s], segment_pairs(all, base, segs, s), m) by {
        lemma_pairs_total_prefix(segs, s, i);
        if s < i {
            lemma_pairs_total_prefix(segs, s, i - 1);
            lemma_pairs_total_step(segs, s);
            lemma_prefix_subrange(before_pairs, added, base + pairs_total(segs.take(s)), base + pairs_total(segs.take(s + 1)));
            assert(keys_apart(segs[s], segs[i]));
            lemma_pairs_kept(segs[s], segment_pairs(before_pairs, base, segs, s), before, m, segs[i]);
        } else {
            assert(segment_pairs(all, base, segs, s) =~= added);
        }
    }
}

/// A stretch of `a` reads the same in `a + b`.
proof fn lemma_prefix_subrange<A>(a: Seq<A>, b: Seq<A>, lo: nat, hi: nat)
    requires
        lo <= hi <= a.len(),
    ensures
        (a + b).subrange(lo as int, hi as int) == a.subrange(lo as int, hi as int),
{
    assert((a + b).subrange(lo as int, hi as int) =~= a.subrange(lo as int, hi as int));
}

/// A segment's pairs read the same against a translation that keeps every
/// entry and adds only pages of a segment apart from it.
proof fn lemma_pairs_kept(
    seg: Segment,
    pairs: Seq<(VirtualPageNumber, FrameTracker)>,
    m1: Map<nat, PageTableEntry>,
    m2: Map<nat, PageTableEntry>,
    other: Segment,
)
    requires
        pairs_of(seg, pairs, m1),
        keys_apart(seg, other),
        forall|k: nat| #[trigger] m1.contains_key(k) ==> m2.contains_key(k) && m2[k] == m1[k],
        forall|k: nat| #[trigger] m2.contains_key(k) ==> m1.contains_key(k)
            || exists|j: int| 0 <= j < other.page_range.size() && k == #[trigger] page_key(other, j),
    ensures
        pairs_of(seg, pairs, m2),
{
    if seg.map_type is Framed {
        assert forall|j: int| 0 <= j < pairs.len() implies (#[trigger] pairs[j]).0.0 == seg.page_range.lo() + j
            && Mapping::holds_entry(m2, page_key(seg, j), PageTableEntry::spec_new(pairs[j].1.0.0, seg.flags.0)) by {
            let k = page_key(seg, j);
            assert(Mapping::holds_entry(m1, k, PageTableEntry::spec_new(pairs[j].1.0.0, seg.flags.0)));
            if m2.contains_key(k) && !m1.contains_key(k) {
                let jj = choose|jj: int| 0 <= jj < other.page_range.size() && k == #[trigger] page_key(other, jj);
                assert(page_key(seg, j) != page_key(other, jj));
            }
        }
    }
}

/// Adding one more segment adds its pairs to the total.
proof fn lemma_pairs_total_step(segs: Seq<Segment>, i: int)
    requires
        0 <= i < segs.len(),
    ensures
        pairs_total(segs.take(i + 1)) == pairs_total(segs.take(i)) + pair_count(segs[i]),
{
    assert(segs.take(i + 1).drop_last() =~= segs.take(i));
}

/// The pair totals of prefixes grow with the prefix.
proof fn lemma_pairs_total_prefix(segs: Seq<Segment>, s: int, i: int)
    requires
        0 <= s <= i < segs.len(),
    ensures
        pairs_total(segs.take(s + 1)) <= pairs_total(segs.take(i + 1)),
    decreases i - s,
{
    lemma_pairs_total_step(segs, i);
    if s < i {
        lemma_pairs_total_prefix(segs, s, i - 1);
    }
}

/// Adding one more segment adds the frames it can take to the total.
proof fn lemma_frames_total_step(segs: Seq<Segment>, i: int)
    requires
        0 <= i < segs.len(),
    ensures
        frames_total(segs.take(i + 1)) == frames_total(segs.take(i)) + Mapping::frames_needed(segs[i]),
{
    assert(segs.take(i + 1).drop_last() =~= segs.take(i));
}

/// A prefix can take no more frames than the whole.
proof fn lemma_frames_total_prefix(segs: Seq<Segment>, i: int)
    requires
        0 <= i <= segs.len(),
    ensures
        frames_total(segs.take(i)) <= frames_total(segs),
    decreases segs.len() - i,
{
    if i < segs.len() {
        lemma_frames_total_prefix(segs, i + 1);
        lemma_frames_total_step(segs, i);
        Mapping::lemma_frames_needed(segs[i]);
    } else {
        assert(segs.take(i) =~= segs);
    }
}

} // verus!
