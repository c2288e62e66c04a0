//! A thread: its stack, its saved context, and whether it sleeps.
use vstd::prelude::*;
use crate::interrupt::context::Context;
use crate::memory::MemoryResult;
use crate::memory::frame::allocator::NO_FREE_FRAME;
use crate::memory::address::{VirtualAddress, vpn_key};
use crate::memory::frame::allocator::{Allocator, FrameAllocator};
use crate::memory::mapping::Flags;
use crate::memory::mapping::mapping::{Mapping, tables_budget};
use crate::memory::mapping::memory_set::{va_fits, page_key, page_mapped};
use crate::memory::mapping::page_table_entry::{READABLE, WRITABLE, USER};
use crate::memory::range::Range;
use crate::process::config::{CONTEXT_SIZE, KERNEL_STACK_SIZE, STACK_SIZE};
use crate::memory::mapping::mapping::satp_value;
use crate::process::kernel_stack::KernelStack;
use crate::process::process::{Process, ALLOC_BASE, first_free, lemma_first_free, lemma_overlap_below_max, max_end, round_up_to_page};
use crate::process::scheduler::ThreadID;

verus! {

/// The part of a thread that changes while it lives.
#[derive(Debug)]
pub struct ThreadInner {
    /// The context the thread resumes from, while it is not running.
    pub context: Option<Context>,
    /// Whether the thread sleeps.
    pub sleeping: bool,
}

/// A thread of a process.
#[derive(Debug)]
pub struct Thread {
    pub id: ThreadID,
    pub stack: Range<VirtualAddress>,
    pub inner: ThreadInner,
}

/// Numbers threads as they are made: each new thread gets the number after
/// the last one given.
#[derive(Debug)]
pub struct ThreadCounter {
    pub last: ThreadID,
}

impl ThreadCounter {
    /// A counter that has given no number yet.
    pub fn new() -> (r: Self)
        ensures
            r.last == 0,
    {
        ThreadCounter { last: 0 }
    }
}

/// Whether the page of `va` is mapped in `mapping`.
fn page_is_mapped(mapping: &Mapping, va: u64) -> (r: bool)
    requires
        mapping.wf(),
    ensures
        r == mapping@.contains_key(vpn_key(va / 4096)),
{
    match mapping.lookup(VirtualAddress(va)) {
        Some((_, entry)) => {
            proof {
                if mapping@.contains_key(vpn_key(va / 4096)) {
                    mapping.lemma_lookup_mapped(va);
                } else {
                    mapping.lemma_lookup_unmapped(va);
                }
            }
            !entry.is_empty()
        },
        None => {
            proof {
                if mapping@.contains_key(vpn_key(va / 4096)) {
                    mapping.lemma_lookup_mapped(va);
                }
            }
            false
        },
    }
}

impl Thread {
    /// A new thread of `process`, numbered by `counter`: a fresh readable and
    /// writable stack of `STACK_SIZE` bytes in the process's address space,
    /// and a context that starts at `entry_point` with `arguments` on top of
    /// that stack. Fails with `NO_FREE_FRAME` when no frame is left for the
    /// stack; the counter then gives no number.
    pub fn new<T: Allocator>(
        process: &mut Process,
        counter: &mut ThreadCounter,
        entry_point: u64,
        arguments: Option<&[u64]>,
        allocator: &mut FrameAllocator<T>,
    ) -> (r: MemoryResult<Thread>)
        requires
            old(process).memory_set.mapping.wf(),
            old(allocator).wf(),
            old(process).memory_set.mapping.frames_outside(*old(allocator)),
            forall|s: int| 0 <= s < old(process).memory_set.segments@.len() ==> va_fits(#[trigger] old(process).memory_set.segments@[s]),
            first_free(old(process).memory_set.segments@, ALLOC_BASE as int, STACK_SIZE as int) + STACK_SIZE <= u64::MAX,
            forall|j: int| 0 <= j < STACK_SIZE / 4096 ==> !old(process).memory_set.mapping@.contains_key(#[trigger] vpn_key(
                (first_free(old(process).memory_set.segments@, ALLOC_BASE as int, STACK_SIZE as int) / 4096 + j) as u64)),
            arguments matches Some(a) ==> a@.len() <= 8,
            old(counter).last < isize::MAX,
        ensures
            final(process).memory_set.mapping.wf(),
            final(allocator).wf(),
            final(process).memory_set.mapping.frames_outside(*final(allocator)),
            final(process).is_user == old(process).is_user,
            forall|k: nat| #[trigger] old(process).memory_set.mapping@.contains_key(k) ==> final(process).memory_set.mapping@.contains_key(k)
                && final(process).memory_set.mapping@[k] == old(process).memory_set.mapping@[k],
            ({
                let (lo, hi, f) = old(process).new_range_segment(STACK_SIZE, Flags(READABLE | WRITABLE));
                old(allocator).free_count() >= (hi - lo) + tables_budget(lo, hi - lo)
            }) ==> r is Ok,
            ({
                let (lo, hi, f) = old(process).new_range_segment(STACK_SIZE, Flags(READABLE | WRITABLE));
                r is Ok ==> old(allocator).free_count() <= final(allocator).free_count() + (hi - lo) + tables_budget(lo, hi - lo)
            }),
            match r {
                Ok(thread) => {
                    let start = first_free(old(process).memory_set.segments@, ALLOC_BASE as int, STACK_SIZE as int);
                    let (lo, hi, f) = old(process).new_range_segment(STACK_SIZE, Flags(READABLE | WRITABLE));
                    let seg = final(process).memory_set.segments@.last();
                    &&& thread.id == old(counter).last + 1
                    &&& final(counter).last == thread.id
                    &&& thread.stack.start.0 == start
                    &&& thread.stack.end.0 == start + STACK_SIZE
                    &&& thread.inner.sleeping == false
                    &&& thread.inner.context matches Some(c) && c.is_start_of(
                        (start + STACK_SIZE) as u64,
                        entry_point,
                        arguments,
                        old(process).is_user,
                    )
                    &&& final(process).memory_set.segments@ == old(process).memory_set.segments@.push(seg)
                    &&& seg.map_type is Framed
                    &&& seg.page_range.lo() == lo
                    &&& seg.page_range.hi() == hi
                    &&& seg.flags.0 == f
                    &&& seg.flags.0 == (READABLE | WRITABLE) | (if old(process).is_user { USER } else { 0u8 })
                    &&& forall|j: int| 0 <= j < hi - lo ==> #[trigger] page_mapped(final(process).memory_set.mapping@, seg, j)
                    &&& forall|k: nat| #[trigger] final(process).memory_set.mapping@.contains_key(k) ==> old(process).memory_set.mapping@.contains_key(k)
                        || exists|j: int| 0 <= j < hi - lo && k == #[trigger] page_key(seg, j)
                },
                Err(e) => {
                    let (lo, hi, f) = old(process).new_range_segment(STACK_SIZE, Flags(READABLE | WRITABLE));
                    &&& e == NO_FREE_FRAME
                    &&& final(counter).last == old(counter).last
                    &&& final(process).memory_set.segments@ == old(process).memory_set.segments@
                    &&& final(process).memory_set.allocated_pairs@ == old(process).memory_set.allocated_pairs@
                    &&& forall|k: nat| #[trigger] final(process).memory_set.mapping@.contains_key(k) ==> old(process).memory_set.mapping@.contains_key(k)
                        || exists|j: int| 0 <= j < hi - lo && k == #[trigger] vpn_key((lo + j) as u64)
                },
            },
    {
        proof {
            assert(round_up_to_page(STACK_SIZE) == STACK_SIZE);
        }
        let stack = match process.alloc_page_range(STACK_SIZE, Flags(READABLE | WRITABLE), allocator) {
            Ok(range) => range,
            Err(e) => {
                return Err(e);
            },
        };
        let context = Context::new(stack.end.0, entry_point, arguments, process.is_user);
        counter.last = counter.last + 1;
        Ok(Thread { id: counter.last, stack, inner: ThreadInner { context: Some(context), sleeping: false } })
    }

    /// Whether `Thread::new` can place a new stack in `process`: the range it
    /// would pick fits below the top of the address space and none of its
    /// pages is mapped yet (mapping one of them again is refused).
    pub fn stack_is_free(process: &Process) -> (r: bool)
        requires
            process.memory_set.mapping.wf(),
            forall|s: int| 0 <= s < process.memory_set.segments@.len() ==> va_fits(#[trigger] process.memory_set.segments@[s]),
        ensures
            r <==> {
                let start = first_free(process.memory_set.segments@, ALLOC_BASE as int, STACK_SIZE as int);
                &&& start + STACK_SIZE <= u64::MAX
                &&& forall|j: int| 0 <= j < STACK_SIZE / 4096 ==> !process.memory_set.mapping@.contains_key(#[trigger] vpn_key(
                    (start / 4096 + j) as u64))
            },
    {
        let ghost segs = process.memory_set.segments@;
        let ghost target = first_free(segs, ALLOC_BASE as int, STACK_SIZE as int);
        proof {
            lemma_first_free(segs, ALLOC_BASE as int, STACK_SIZE as int);
        }
        let mut start: u64 = ALLOC_BASE;
        while start <= u64::MAX - STACK_SIZE && process.memory_set.overlap_with(
            Range::from_bounds(VirtualAddress(start), VirtualAddress(start + STACK_SIZE)),
        )
            invariant
                segs == process.memory_set.segments@,
                forall|s: int| 0 <= s < segs.len() ==> va_fits(#[trigger] segs[s]),
                first_free(segs, start as int, STACK_SIZE as int) == target,
                start <= target,
                start % 4096 == 0,
            decreases max_end(segs) - start + STACK_SIZE,
        {
            proof {
                lemma_overlap_below_max(segs, start as int, start + STACK_SIZE);
                lemma_first_free(segs, start + STACK_SIZE, STACK_SIZE as int);
            }
            start = start + STACK_SIZE;
        }
        if start > u64::MAX - STACK_SIZE {
            return false;
        }
        proof {
            assert(start == target);
        }
        let mut j: u64 = 0;
        while j < STACK_SIZE / 4096
            invariant
                process.memory_set.mapping.wf(),
                target == first_free(process.memory_set.segments@, ALLOC_BASE as int, STACK_SIZE as int),
                start == target,
                start % 4096 == 0,
                start + STACK_SIZE <= u64::MAX,
                j <= STACK_SIZE / 4096,
                forall|i: int| 0 <= i < j ==> !process.memory_set.mapping@.contains_key(#[trigger] vpn_key((start / 4096 + i) as u64)),
            decreases STACK_SIZE / 4096 - j,
        {
            let va = start + j * 4096;
            proof {
                assert(va / 4096 == start / 4096 + j);
            }
            if page_is_mapped(&process.memory_set.mapping, va) {
                proof {
                    assert(process.memory_set.mapping@.contains_key(vpn_key((target / 4096 + j as int) as u64)));
                }
                return false;
            }
            j = j + 1;
        }
        true
    }

    /// Saves the context the thread was interrupted in; it must have none saved.
    pub fn park(&mut self, context: Context)
        requires
            old(self).inner.context is None,
        ensures
            final(self).inner.context == Some(context),
            final(self).inner.sleeping == old(self).inner.sleeping,
            final(self).id == old(self).id,
            final(self).stack == old(self).stack,
    {
        self.inner.context = Some(context);
    }

    /// Takes the saved context out to resume the thread in `process`: says
    /// which `satp` value switches to the process's address space and where
    /// the context goes, which is always the top of `kernel_stack`, for user
    /// and kernel threads alike. There must be a saved context.
    pub fn prepare(&mut self, process: &Process, kernel_stack: &KernelStack) -> (r: (u64, u64, Context))
        requires
            old(self).inner.context is Some,
            kernel_stack.base + KERNEL_STACK_SIZE <= u64::MAX,
        ensures
            final(self).inner.context is None,
            final(self).inner.sleeping == old(self).inner.sleeping,
            final(self).id == old(self).id,
            final(self).stack == old(self).stack,
            r.0 == satp_value(process.memory_set.mapping.root()),
            r.1 == kernel_stack.base + KERNEL_STACK_SIZE - CONTEXT_SIZE,
            r.2 == old(self).inner.context->0,
    {
        let satp = process.memory_set.flush();
        let parked = self.inner.context.take().unwrap();
        (satp, kernel_stack.push_context(), parked)
    }
}

/// Preparing a thread gives back the context it was last parked with.
pub proof fn lemma_prepare_returns_parked(parked: Thread, context: Context, prepared: (u64, u64, Context))
    requires
        parked.inner.context == Some(context),
        prepared.2 == parked.inner.context->0,
    ensures
        prepared.2 == context,
{
}

} // verus!
