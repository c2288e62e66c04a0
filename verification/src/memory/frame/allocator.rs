//! The interface of a frame-index allocator, and the frame allocator that
//! turns its indices into physical frames.
use vstd::prelude::*;
use crate::memory::MemoryResult;
use crate::memory::address::PhysicalPageNumber;
use crate::memory::range::Range;
use crate::memory::frame::frame_tracker::FrameTracker;
use crate::memory::mapping::page_table_entry::MAX_PPN;

verus! {

/// Hands out indices below a capacity fixed at creation, one at a time, and
/// takes them back.
pub trait Allocator: Sized {
    /// The indices that can still be handed out.
    spec fn free_set(&self) -> Set<usize>;

    /// How many indices can still be handed out.
    spec fn free_count(&self) -> nat;

    /// Whether the bookkeeping is sound: an index is handed out at most once
    /// and `free_count` counts `free_set`.
    spec fn wf(&self) -> bool;

    /// Whether `self` is what `new(capacity)` gives.
    spec fn is_new(&self, capacity: usize) -> bool;

    /// The index `allocate` hands out next, or `None` when it has none.
    spec fn next_index(&self) -> Option<usize>;

    /// Whether `self` is what `allocate` leaves of `before` after handing
    /// out `before.next_index()`.
    spec fn follows_allocate(&self, before: &Self) -> bool;

    /// Whether `self` is what `dealloc(index)` leaves of `before`.
    spec fn follows_dealloc(&self, before: &Self, index: usize) -> bool;

    /// A sound allocator has nothing left exactly when its count is zero.
    proof fn lemma_count_matches(&self)
        requires
            self.wf(),
        ensures
            self.free_set().finite(),
            self.free_set().len() == self.free_count(),
    ;

    /// An allocator of the indices `0..capacity`.
    fn new(capacity: usize) -> (r: Self)
        ensures
            r.is_new(capacity),
            r.free_count() == capacity,
            capacity > 0 ==> r.wf(),
            capacity > 0 ==> r.free_set() == Set::new(|i: usize| i < capacity),
    ;

    /// Takes one free index, or `None` when there is none.
    fn allocate(&mut self) -> (r: Option<usize>)
        ensures
            r == old(self).next_index(),
            r is Some ==> final(self).follows_allocate(&*old(self)),
            old(self).wf() ==> final(self).wf(),
            old(self).wf() ==> match r {
                Some(i) => {
                    &&& old(self).free_set().contains(i)
                    &&& final(self).free_set() == old(self).free_set().remove(i)
                    &&& final(self).free_count() + 1 == old(self).free_count()
                },
                None => {
                    &&& old(self).free_count() == 0
                    &&& final(self).free_set() == old(self).free_set()
                    &&& final(self).free_count() == 0
                },
            },
    ;

    /// Gives `index` back.
    fn dealloc(&mut self, index: usize)
        requires
            index < usize::MAX,
        ensures
            final(self).follows_dealloc(&*old(self), index),
            old(self).wf() && !old(self).free_set().contains(index) ==> {
                &&& final(self).wf()
                &&& final(self).free_set() == old(self).free_set().insert(index)
                &&& final(self).free_count() == old(self).free_count() + 1
            },
    ;
}

} // verus!

verus! {

/// The message of every allocation that finds no free frame.
pub const NO_FREE_FRAME: &'static str = "no available frame to allocator";

/// Hands out the physical frames of one contiguous range, through an index
/// allocator over the offsets into that range.
pub struct FrameAllocator<T: Allocator> {
    start_ppn: PhysicalPageNumber,
    allocator: T,
}

impl<T: Allocator> FrameAllocator<T> {
    /// The first frame of the managed range.
    pub closed spec fn start(&self) -> u64 {
        self.start_ppn.0
    }

    /// The index allocator underneath.
    pub closed spec fn inner(&self) -> T {
        self.allocator
    }

    /// The frames that can still be handed out.
    pub open spec fn free_frames(&self) -> Set<u64> {
        Set::new(
            |p: u64|
                exists|i: usize| #[trigger]
                    self.inner().free_set().contains(i) && p == self.start() + i,
        )
    }

    /// How many frames can still be handed out.
    pub open spec fn free_count(&self) -> nat {
        self.inner().free_count()
    }

    /// The bookkeeping is sound and every free frame fits a page-table entry.
    pub open spec fn wf(&self) -> bool {
        &&& self.inner().wf()
        &&& forall|i: usize| #[trigger]
            self.inner().free_set().contains(i) ==> self.start() + i <= MAX_PPN && i < usize::MAX
    }

    /// A free frame lies at or after the start, within an index of it.
    pub proof fn lemma_free_frame(&self, p: u64)
        requires
            self.wf(),
            self.free_frames().contains(p),
        ensures
            self.start() <= p <= MAX_PPN,
            p - self.start() < usize::MAX,
    {
        let i = choose|i: usize| #[trigger] self.inner().free_set().contains(i) && p == self.start() + i;
    }

    /// Manages the frames of `range`.
    pub fn new(range: Range<PhysicalPageNumber>) -> (r: Self)
        requires
            range.lo() <= range.hi(),
            range.hi() - range.lo() <= usize::MAX,
        ensures
            r.start() == range.start.0,
            r.inner().is_new((range.hi() - range.lo()) as usize),
            r.free_count() == range.hi() - range.lo(),
            range.lo() < range.hi() ==> r.free_frames() == Set::new(|p: u64| range.holds(p as int)),
            range.lo() < range.hi() && range.hi() <= MAX_PPN + 1 ==> r.wf(),
    {
        let len = range.len();
        let allocator = T::new(len as usize);
        let r = FrameAllocator { start_ppn: range.start, allocator };
        proof {
            if range.lo() < range.hi() {
                assert(r.free_frames() =~= Set::new(|p: u64| range.holds(p as int))) by {
                    assert forall|p: u64| range.holds(p as int) implies r.free_frames().contains(p) by {
                        let i = (p - range.start.0) as usize;
                        assert(r.inner().free_set().contains(i));
                    }
                }
            }
        }
        r
    }

    /// Takes a free frame, or fails with `NO_FREE_FRAME` when none is left.
    pub fn allocate(&mut self) -> (r: MemoryResult<FrameTracker>)
        requires
            old(self).wf(),
        ensures
            final(self).wf(),
            final(self).start() == old(self).start(),
            r is Ok <==> old(self).inner().next_index() is Some,
            match r {
                Ok(frame) => {
                    &&& frame.0.0 == old(self).start() + old(self).inner().next_index()->0
                    &&& final(self).inner().follows_allocate(&old(self).inner())
                    &&& old(self).free_frames().contains(frame.0.0)
                    &&& frame.0.0 <= MAX_PPN
                    &&& final(self).free_frames() == old(self).free_frames().remove(frame.0.0)
                    &&& final(self).free_count() + 1 == old(self).free_count()
                },
                Err(e) => {
                    &&& e == NO_FREE_FRAME
                    &&& old(self).free_count() == 0
                    &&& final(self).free_frames() == old(self).free_frames()
                    &&& final(self).free_count() == 0
                },
            },
    {
        let ghost old_self = *self;
        match self.allocator.allocate() {
            Some(offset) => {
                let frame = FrameTracker(PhysicalPageNumber(self.start_ppn.0 + offset as u64));
                proof {
                    let p = frame.0.0;
                    assert(old_self.free_frames().contains(p));
                    assert(self.free_frames() =~= old_self.free_frames().remove(p)) by {
                        assert forall|q: u64| #[trigger] self.free_frames().contains(q) implies old_self.free_frames().remove(p).contains(q) by {
                            let j = choose|j: usize| #[trigger] self.inner().free_set().contains(j) && q == self.start() + j;
                            assert(old_self.inner().free_set().contains(j));
                        }
                        assert forall|q: u64| #[trigger] old_self.free_frames().remove(p).contains(q) implies self.free_frames().contains(q) by {
                            let j = choose|j: usize| #[trigger] old_self.inner().free_set().contains(j) && q == old_self.start() + j;
                            assert(self.inner().free_set().contains(j));
                        }
                    }
                }
                Ok(frame)
            },
            None => {
                proof {
                    assert(self.free_frames() =~= old_self.free_frames());
                }
                Err(NO_FREE_FRAME)
            },
        }
    }

    /// Gives `frame` back.
    pub fn dealloc(&mut self, frame: &FrameTracker)
        requires
            old(self).start() <= frame.0.0,
            frame.0.0 - old(self).start() < usize::MAX,
        ensures
            final(self).start() == old(self).start(),
            final(self).inner().follows_dealloc(&old(self).inner(), (frame.0.0 - old(self).start()) as usize),
            old(self).wf() && !old(self).free_frames().contains(frame.0.0) && frame.0.0 <= MAX_PPN
                ==> {
                &&& final(self).wf()
                &&& final(self).free_frames() == old(self).free_frames().insert(frame.0.0)
                &&& final(self).free_count() == old(self).free_count() + 1
            },
    {
        let ghost old_self = *self;
        let offset = (frame.page_number().0 - self.start_ppn.0) as usize;
        proof {
            if old_self.inner().free_set().contains(offset) {
                assert(old_self.free_frames().contains(frame.0.0));
            }
        }
        self.allocator.dealloc(offset);
        proof {
            let p = frame.0.0;
            if old_self.wf() && !old_self.free_frames().contains(p) && p <= MAX_PPN {
                assert(self.free_frames() =~= old_self.free_frames().insert(p)) by {
                    assert forall|q: u64| #[trigger] self.free_frames().contains(q) implies old_self.free_frames().insert(p).contains(q) by {
                        let j = choose|j: usize| #[trigger] self.inner().free_set().contains(j) && q == self.start() + j;
                        if j != offset {
                            assert(old_self.inner().free_set().contains(j));
                        }
                    }
                    assert forall|q: u64| #[trigger] old_self.free_frames().insert(p).contains(q) implies self.free_frames().contains(q) by {
                        if q == p {
                            assert(self.inner().free_set().contains(offset));
                        } else {
                            let j = choose|j: usize| #[trigger] old_self.inner().free_set().contains(j) && q == old_self.start() + j;
                            assert(self.inner().free_set().contains(j));
                        }
                    }
                }
            }
        }
    }
}

/// A frame handed out is not handed out again while it is held: after
/// `allocate` gave `p`, every frame still free differs from `p`.
pub proof fn lemma_allocations_distinct<T: Allocator>(before: FrameAllocator<T>, after: FrameAllocator<T>, p: u64, q: u64)
    requires
        before.free_frames().contains(p),
        after.free_frames() == before.free_frames().remove(p),
        after.free_frames().contains(q),
    ensures
        p != q,
{
}

/// Giving back the frame just handed out restores the free frames and
/// their count.
pub proof fn lemma_dealloc_undoes_allocate<T: Allocator>(
    a0: FrameAllocator<T>,
    a1: FrameAllocator<T>,
    a2: FrameAllocator<T>,
    p: u64,
)
    requires
        a0.free_frames().contains(p),
        a1.free_frames() == a0.free_frames().remove(p),
        a1.free_count() + 1 == a0.free_count(),
        a2.free_frames() == a1.free_frames().insert(p),
        a2.free_count() == a1.free_count() + 1,
    ensures
        a2.free_frames() == a0.free_frames(),
        a2.free_count() == a0.free_count(),
{
    assert(a2.free_frames() =~= a0.free_frames());
}

} // verus!
