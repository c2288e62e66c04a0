//! Scheduling policies and the first-in, first-out one.
use vstd::prelude::*;

verus! {

/// The number that identifies a thread.
pub type ThreadID = isize;

/// The threads of `s` other than `t`, in order.
pub open spec fn without(s: Seq<ThreadID>, t: ThreadID) -> Seq<ThreadID> {
    s.filter(|x: ThreadID| x != t)
}

/// Decides which thread runs next.
pub trait Scheduler: Sized {
    /// The threads waiting to run, in the order the policy keeps them.
    spec fn queue(&self) -> Seq<ThreadID>;

    /// Adds `thread` to the waiting threads.
    fn add_thread<T>(&mut self, thread: ThreadID, priority: T)
        ensures
            final(self).queue().to_multiset() == old(self).queue().to_multiset().insert(thread),
    ;

    /// Takes the thread that runs next, or `None` when none waits.
    fn get_next(&mut self) -> (r: Option<ThreadID>)
        ensures
            old(self).queue().len() == 0 <==> r is None,
            r is None ==> final(self).queue() == old(self).queue(),
            r matches Some(t) ==> old(self).queue().contains(t)
                && final(self).queue().to_multiset() == old(self).queue().to_multiset().remove(t),
    ;

    /// Removes every occurrence of `thread` from the waiting threads.
    fn remove_thread(&mut self, thread: &ThreadID)
        ensures
            final(self).queue() == without(old(self).queue(), *thread),
    ;

    /// Whether the policy keeps priorities; `set_priority` may only be
    /// called on a scheduler that does.
    spec fn has_priorities(&self) -> bool;

    /// Gives `thread` a new priority, for policies that have priorities.
    fn set_priority<T>(&mut self, thread: ThreadID, priority: T)
        requires
            old(self).has_priorities(),
        ensures
            final(self).queue().to_multiset() == old(self).queue().to_multiset(),
    ;
}

/// Runs threads in the order they were added.
pub struct FifoScheduler {
    queue: Vec<ThreadID>,
}

impl FifoScheduler {
    /// How many threads wait.
    pub fn len(&self) -> (r: usize)
        ensures
            r == self.queue().len(),
    {
        self.queue.len()
    }

    /// A scheduler with no thread.
    pub fn new() -> (r: Self)
        ensures
            r.queue() == Seq::<ThreadID>::empty(),
    {
        FifoScheduler { queue: Vec::new() }
    }
}

impl Default for FifoScheduler {
    /// A scheduler with no thread.
    fn default() -> (r: Self)
        ensures
            r.queue() == Seq::<ThreadID>::empty(),
    {
        FifoScheduler::new()
    }
}

impl Scheduler for FifoScheduler {
    closed spec fn queue(&self) -> Seq<ThreadID> {
        self.queue@
    }

    /// A FIFO queue keeps no priorities.
    open spec fn has_priorities(&self) -> bool {
        false
    }

    /// Appends `thread` at the back; a FIFO queue has no priorities.
    fn add_thread<T>(&mut self, thread: ThreadID, priority: T)
        ensures
            final(self).queue() == old(self).queue().push(thread),
    {
        self.queue.push(thread);
        proof {
            vstd::seq_lib::to_multiset_build(old(self).queue@, thread);
        }
    }

    /// Takes the thread at the front.
    fn get_next(&mut self) -> (r: Option<ThreadID>)
        ensures
            old(self).queue().len() > 0 ==> r == Some(old(self).queue()[0]) && final(self).queue()
                == old(self).queue().drop_first(),
    {
        if self.queue.len() == 0 {
            None
        } else {
            let ghost q = self.queue@;
            let t = self.queue.remove(0);
            proof {
                vstd::seq_lib::to_multiset_remove(q, 0);
                assert(q.remove(0) =~= q.drop_first());
                assert(q.contains(t)) by {
                    assert(q[0] == t);
                }
                assert(self.queue@ =~= q.drop_first());
            }
            Some(t)
        }
    }

    /// Keeps every thread but `thread`, in order.
    fn remove_thread(&mut self, thread: &ThreadID) {
        let target = *thread;
        let mut kept: Vec<ThreadID> = Vec::new();
        let mut i: usize = 0;
        while i < self.queue.len()
            invariant
                i <= self.queue@.len(),
                kept@ == self.queue@.take(i as int).filter(|x: ThreadID| x != target),
            decreases self.queue@.len() - i,
        {
            let t = self.queue[i];
            proof {
                let next = self.queue@.take(i + 1);
                assert(next.drop_last() =~= self.queue@.take(i as int));
                assert(next.last() == t);
                reveal_with_fuel(Seq::filter, 1);
            }
            if t != target {
                kept.push(t);
            }
            i = i + 1;
        }
        proof {
            assert(self.queue@.take(i as int) =~= self.queue@);
            assert((|x: ThreadID| x != target) =~= (|x: ThreadID| x != *thread));
        }
        self.queue = kept;
    }

    /// A FIFO queue has no priorities, so this is never called on one (its
    /// `requires` cannot be met).
    fn set_priority<T>(&mut self, thread: ThreadID, priority: T) {
    }
}

} // verus!
