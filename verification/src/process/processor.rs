//! The decisions of the processor: which thread runs, which wait, which sleep.
use vstd::prelude::*;
use crate::process::scheduler::{FifoScheduler, Scheduler, ThreadID, without};
use crate::process::thread::Thread;
use hashbrown::HashSet;

verus! {

/// A set of thread ids, kept in a `hashbrown::HashSet`. The set is held
/// in a field hidden from Verus: `HashSet`'s allocator parameter is bounded
/// by a trait that `hashbrown` does not export, so the type itself cannot be
/// declared. Its contents are named by `thread_set`.
#[verifier::external_body]
pub struct ThreadSet {
    set: HashSet<ThreadID>,
}

/// The ids a `ThreadSet` holds.
pub uninterp spec fn thread_set(s: ThreadSet) -> Set<ThreadID>;

/// `hashbrown::HashSet::new`: an empty set.
#[verifier::external_body]
fn thread_set_new() -> (r: ThreadSet)
    ensures
        thread_set(r) == Set::<ThreadID>::empty(),
{
    ThreadSet { set: HashSet::new() }
}

/// `hashbrown::HashSet::insert`: adds `t`, and says whether it was absent.
#[verifier::external_body]
fn thread_set_insert(s: &mut ThreadSet, t: ThreadID) -> (r: bool)
    ensures
        thread_set(*final(s)) == thread_set(*old(s)).insert(t),
        r == !thread_set(*old(s)).contains(t),
{
    s.set.insert(t)
}

/// `hashbrown::HashSet::remove`: takes `t` out, and says whether it was there.
#[verifier::external_body]
fn thread_set_remove(s: &mut ThreadSet, t: ThreadID) -> (r: bool)
    ensures
        thread_set(*final(s)) == thread_set(*old(s)).remove(t),
        r == thread_set(*old(s)).contains(t),
{
    s.set.remove(&t)
}

/// What a timer tick asks of the caller.
#[derive(Debug, PartialEq, Eq, Structural)]
pub enum TickAction {
    /// Keep running the current thread with the context it was interrupted in.
    Continue,
    /// Save the interrupted context into thread `park` and resume thread `run`.
    Switch { park: ThreadID, run: ThreadID },
}

/// The threads of one processor: the one running, the ones waiting in the
/// scheduler, and the ones asleep.
pub struct Processor {
    current_thread: Option<ThreadID>,
    scheduler: FifoScheduler,
    sleeping_threads: ThreadSet,
}

impl Processor {
    /// The thread running, if any.
    pub closed spec fn current(&self) -> Option<ThreadID> {
        self.current_thread
    }

    /// The threads waiting to run, front first.
    pub closed spec fn waiting(&self) -> Seq<ThreadID> {
        self.scheduler.queue()
    }

    /// The threads asleep.
    pub closed spec fn sleeping(&self) -> Set<ThreadID> {
        thread_set(self.sleeping_threads)
    }

    /// A processor with no thread.
    pub fn new() -> (r: Self)
        ensures
            r.current() is None,
            r.waiting() == Seq::<ThreadID>::empty(),
            r.sleeping() == Set::<ThreadID>::empty(),
    {
        Processor { current_thread: None, scheduler: FifoScheduler::new(), sleeping_threads: thread_set_new() }
    }

    /// Adds `thread` to the waiting threads; it also becomes the current
    /// thread when there is none.
    pub fn add_thread(&mut self, thread: ThreadID)
        ensures
            final(self).current() == (if old(self).current() is None { Some(thread) } else { old(self).current() }),
            final(self).waiting() == old(self).waiting().push(thread),
            final(self).sleeping() == old(self).sleeping(),
    {
        if self.current_thread.is_none() {
            self.current_thread = Some(thread);
        }
        self.scheduler.add_thread(thread, 0u8);
    }

    /// The thread running; there must be one.
    pub fn current_thread(&self) -> (r: ThreadID)
        requires
            self.current() is Some,
        ensures
            self.current() == Some(r),
    {
        self.current_thread.unwrap()
    }

    /// Puts the running thread, `thread`, to sleep: it is marked sleeping,
    /// leaves the waiting threads and joins the sleeping ones.
    pub fn sleep_current_thread(&mut self, thread: &mut Thread)
        requires
            old(self).current() == Some(old(thread).id),
        ensures
            final(thread).inner.sleeping == true,
            final(thread).id == old(thread).id,
            final(thread).stack == old(thread).stack,
            final(thread).inner.context == old(thread).inner.context,
            final(self).current() == old(self).current(),
            final(self).waiting() == without(old(self).waiting(), old(thread).id),
            !final(self).waiting().contains(old(thread).id),
            final(self).sleeping() == old(self).sleeping().insert(old(thread).id),
    {
        let current = self.current_thread();
        let ghost w0 = self.waiting();
        self.scheduler.remove_thread(&current);
        let ghost w1 = self.waiting();
        proof {
            assert(w1 == without(w0, current));
            let w = self.waiting();
            if w.contains(current) {
                let j = choose|j: int| 0 <= j < w.len() && w[j] == current;
                old(self).waiting().lemma_filter_pred(|x: ThreadID| x != current, j);
            }
        }
        thread_set_insert(&mut self.sleeping_threads, current);
        thread.inner.sleeping = true;
        proof {
            assert(self.waiting() == w1);
        }
    }

    /// Wakes `thread`: it is marked awake, leaves the sleeping threads and
    /// waits to run again.
    pub fn wake_thread(&mut self, thread: &mut Thread)
        ensures
            final(thread).inner.sleeping == false,
            final(thread).id == old(thread).id,
            final(thread).stack == old(thread).stack,
            final(thread).inner.context == old(thread).inner.context,
            final(self).current() == old(self).current(),
            final(self).waiting() == old(self).waiting().push(old(thread).id),
            final(self).sleeping() == old(self).sleeping().remove(old(thread).id),
    {
        thread.inner.sleeping = false;
        thread_set_remove(&mut self.sleeping_threads, thread.id);
        self.scheduler.add_thread(thread.id, 0u8);
    }

    /// Whether some thread waits to run, which `tick` needs.
    pub fn has_waiting(&self) -> (r: bool)
        ensures
            r == (self.waiting().len() > 0),
    {
        self.scheduler.len() > 0
    }

    /// A timer tick: the scheduler picks the next thread; if it is the
    /// current one, that thread continues, otherwise it becomes current and
    /// the one interrupted is parked. There must be a current thread and a
    /// waiting one.
    pub fn tick(&mut self) -> (r: TickAction)
        requires
            old(self).current() is Some,
            old(self).waiting().len() > 0,
        ensures
            final(self).waiting() == old(self).waiting().drop_first(),
            final(self).sleeping() == old(self).sleeping(),
            final(self).current() == Some(old(self).waiting()[0]),
            r == (if old(self).waiting()[0] == old(self).current()->0 {
                TickAction::Continue
            } else {
                TickAction::Switch { park: old(self).current()->0, run: old(self).waiting()[0] }
            }),
    {
        let next = self.scheduler.get_next().unwrap();
        let current = self.current_thread();
        if next == current {
            TickAction::Continue
        } else {
            self.current_thread = Some(next);
            TickAction::Switch { park: current, run: next }
        }
    }
}

impl Default for Processor {
    /// A processor with no thread.
    fn default() -> (r: Self)
        ensures
            r.current() is None,
            r.waiting() == Seq::<ThreadID>::empty(),
            r.sleeping() == Set::<ThreadID>::empty(),
    {
        Processor::new()
    }
}

/// A thread that does not wait (it sleeps) is not picked by a tick and
/// still does not wait after it.
pub proof fn lemma_sleeping_not_picked(before: Processor, after: Processor, t: ThreadID)
    requires
        !before.waiting().contains(t),
        before.waiting().len() > 0,
        after.current() == Some(before.waiting()[0]),
        after.waiting() == before.waiting().drop_first(),
    ensures
        after.current() != Some(t),
        !after.waiting().contains(t),
{
    assert(before.waiting().contains(before.waiting()[0]));
    if after.waiting().contains(t) {
        let j = choose|j: int| 0 <= j < after.waiting().len() && after.waiting()[j] == t;
        assert(before.waiting()[j + 1] == t);
    }
}

} // verus!
