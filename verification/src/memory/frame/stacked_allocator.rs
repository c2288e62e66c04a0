//! An allocator that keeps its free indices as a stack of ranges.
use vstd::prelude::*;
use crate::memory::frame::allocator::Allocator;

verus! {

/// Whether `i` lies in the half-open range `p`.
pub open spec fn in_span(p: (usize, usize), i: usize) -> bool {
    p.0 <= i < p.1
}

/// How many indices the ranges of `s` hold together.
pub open spec fn spans_count(s: Seq<(usize, usize)>) -> nat
    decreases s.len(),
{
    if s.len() == 0 {
        0
    } else {
        spans_count(s.drop_last()) + (if s.last().0 <= s.last().1 {
            (s.last().1 - s.last().0) as nat
        } else {
            0
        })
    }
}

/// The indices that lie in some range of `s`.
pub open spec fn spans_set(s: Seq<(usize, usize)>) -> Set<usize> {
    Set::new(|i: usize| exists|k: int| 0 <= k < s.len() && #[trigger] in_span(s[k], i))
}

/// Keeps the free indices as a stack of ranges: `alloc` takes the first
/// index of the top range, `dealloc` pushes a range of one index.
pub struct StackedAllocator {
    list: Vec<(usize, usize)>,
}

impl StackedAllocator {
    /// The stack of free ranges, bottom first.
    pub closed spec fn spans(&self) -> Seq<(usize, usize)> {
        self.list@
    }

    /// No range is reversed.
    #[verifier::type_invariant]
    spec fn ordered(&self) -> bool {
        forall|k: int| 0 <= k < self.list@.len() ==> (#[trigger] self.list@[k]).0 <= self.list@[k].1
    }

    /// Every range is non-empty and no two ranges share an index.
    pub open spec fn proper(&self) -> bool {
        &&& forall|k: int| 0 <= k < self.spans().len() ==> (#[trigger] self.spans()[k]).0 < self.spans()[k].1
        &&& forall|a: int, b: int|
            0 <= a < self.spans().len() && 0 <= b < self.spans().len() && a != b ==> (
            #[trigger] self.spans()[a]).1 <= (#[trigger] self.spans()[b]).0 || self.spans()[b].1
                <= self.spans()[a].0
    }

    /// The ranges of `s` hold at most their count of indices, and exactly that
    /// many when they are non-empty and disjoint.
    proof fn lemma_spans(s: Seq<(usize, usize)>)
        requires
            forall|k: int| 0 <= k < s.len() ==> (#[trigger] s[k]).0 < s[k].1,
            forall|a: int, b: int|
                0 <= a < s.len() && 0 <= b < s.len() && a != b ==> (#[trigger] s[a]).1 <= (
                #[trigger] s[b]).0 || s[b].1 <= s[a].0,
        ensures
            spans_set(s).finite(),
            spans_set(s).len() == spans_count(s),
        decreases s.len(),
    {
        if s.len() == 0 {
            assert(spans_set(s) =~= Set::empty());
        } else {
            let rest = s.drop_last();
            let top = s.last();
            Self::lemma_spans(rest);
            let span = Set::new(|i: usize| in_span(top, i));
            lemma_span_set(top.0, top.1);
            assert(spans_set(s) =~= spans_set(rest).union(span)) by {
                assert forall|i: usize| spans_set(s).contains(i) implies spans_set(rest).union(
                    span,
                ).contains(i) by {
                    let k = choose|k: int| 0 <= k < s.len() && #[trigger] in_span(s[k], i);
                    if k < s.len() - 1 {
                        assert(in_span(rest[k], i));
                    }
                }
                assert forall|i: usize| spans_set(rest).union(span).contains(i) implies spans_set(
                    s,
                ).contains(i) by {
                    if spans_set(rest).contains(i) {
                        let k = choose|k: int| 0 <= k < rest.len() && #[trigger] in_span(rest[k], i);
                        assert(in_span(s[k], i));
                    } else {
                        assert(in_span(s[s.len() - 1], i));
                    }
                }
            }
            assert(spans_set(rest).disjoint(span)) by {
                assert forall|i: usize| spans_set(rest).contains(i) implies !span.contains(i) by {
                    let k = choose|k: int| 0 <= k < rest.len() && #[trigger] in_span(rest[k], i);
                    assert(s[k] == rest[k]);
                    assert(s[k].1 <= s[s.len() - 1].0 || s[s.len() - 1].1 <= s[k].0);
                }
            }
            vstd::set_lib::lemma_set_disjoint_lens(spans_set(rest), span);
        }
    }
}

/// The indices of `lo..hi` form a finite set of `hi - lo` elements.
proof fn lemma_span_set(lo: usize, hi: usize)
    requires
        lo <= hi,
    ensures
        Set::new(|i: usize| in_span((lo, hi), i)).finite(),
        Set::new(|i: usize| in_span((lo, hi), i)).len() == hi - lo,
    decreases hi - lo,
{
    let s = Set::new(|i: usize| in_span((lo, hi), i));
    if lo == hi {
        assert(s =~= Set::empty());
    } else {
        let t = Set::new(|i: usize| in_span((lo, (hi - 1) as usize), i));
        lemma_span_set(lo, (hi - 1) as usize);
        assert(s =~= t.insert((hi - 1) as usize));
    }
}

impl Allocator for StackedAllocator {
    open spec fn free_set(&self) -> Set<usize> {
        spans_set(self.spans())
    }

    open spec fn free_count(&self) -> nat {
        spans_count(self.spans())
    }

    open spec fn wf(&self) -> bool {
        self.proper()
    }

    /// The single range `0..capacity`.
    open spec fn is_new(&self, capacity: usize) -> bool {
        self.spans() == seq![(0usize, capacity)]
    }

    /// The first index of the top range.
    open spec fn next_index(&self) -> Option<usize> {
        if self.spans().len() == 0 {
            None
        } else {
            Some(self.spans().last().0)
        }
    }

    /// The top range lost its first index, and is gone if that was its only one.
    open spec fn follows_allocate(&self, before: &Self) -> bool {
        let top = before.spans().last();
        self.spans() == if top.1 - top.0 > 1 {
            before.spans().drop_last().push(((top.0 + 1) as usize, top.1))
        } else {
            before.spans().drop_last()
        }
    }

    /// The range `index..index + 1` is pushed on top.
    open spec fn follows_dealloc(&self, before: &Self, index: usize) -> bool {
        self.spans() == before.spans().push((index, (index + 1) as usize))
    }

    proof fn lemma_count_matches(&self) {
        Self::lemma_spans(self.spans());
    }

    /// One range `0..capacity`.
    fn new(capacity: usize) -> (r: Self)
        ensures
            r.spans() == seq![(0usize, capacity)],
    {
        let mut list: Vec<(usize, usize)> = Vec::new();
        list.push((0, capacity));
        let r = StackedAllocator { list };
        proof {
            assert(r.spans().drop_last() =~= Seq::<(usize, usize)>::empty());
            assert(spans_count(r.spans().drop_last()) == 0);
            assert(r.spans().last() == (0usize, capacity));
            if capacity > 0 {
                assert(r.free_set() =~= Set::new(|i: usize| i < capacity)) by {
                    assert forall|i: usize| i < capacity implies r.free_set().contains(i) by {
                        assert(in_span(r.spans()[0], i));
                    }
                }
            }
        }
        r
    }

    /// Pops the top range, gives its first index, and pushes the rest of
    /// it back when there is any.
    fn allocate(&mut self) -> (r: Option<usize>)
        ensures
            old(self).spans().len() == 0 ==> r.is_none() && final(self).spans() == old(self).spans(),
            old(self).spans().len() > 0 ==> {
                let top = old(self).spans().last();
                &&& r == Some(top.0)
                &&& final(self).spans() == if top.1 - top.0 > 1 {
                    old(self).spans().drop_last().push(((top.0 + 1) as usize, top.1))
                } else {
                    old(self).spans().drop_last()
                }
            },
    {
        proof {
            use_type_invariant(&*self);
        }
        let ghost old_spans = self.spans();
        let mut list: Vec<(usize, usize)> = Vec::new();
        std::mem::swap(&mut list, &mut self.list);
        if let Some((start, end)) = list.pop() {
            proof {
                assert(old_spans[old_spans.len() - 1] == (start, end));
                assert(list@ =~= old_spans.drop_last());
            }
            if end - start > 1 {
                list.push((start + 1, end));
            }
            self.list = list;
            proof {
                let s = old_spans;
                let fin = self.spans();
                assert(spans_count(s) == spans_count(s.drop_last()) + (end - start));
                if end - start > 1 {
                    assert(fin.drop_last() =~= s.drop_last());
                    assert(spans_count(fin) == spans_count(s.drop_last()) + (end - start - 1));
                }
                if s.len() > 0 && (forall|k: int| 0 <= k < s.len() ==> (#[trigger] s[k]).0 < s[k].1)
                    && (forall|a: int, b: int|
                    0 <= a < s.len() && 0 <= b < s.len() && a != b ==> (#[trigger] s[a]).1 <= (
                    #[trigger] s[b]).0 || s[b].1 <= s[a].0) {
                    assert(spans_set(fin) =~= spans_set(s).remove(start)) by {
                        assert forall|i: usize| spans_set(fin).contains(i) implies spans_set(
                            s,
                        ).remove(start).contains(i) by {
                            let k = choose|k: int| 0 <= k < fin.len() && #[trigger] in_span(fin[k], i);
                            if k == s.len() - 1 {
                                assert(in_span(s[k], i));
                            } else {
                                assert(fin[k] == s[k]);
                                assert(in_span(s[k], i));
                                assert(s[k].1 <= s[s.len() - 1].0 || s[s.len() - 1].1 <= s[k].0);
                            }
                        }
                        assert forall|i: usize| spans_set(s).remove(start).contains(i) implies spans_set(
                            fin,
                        ).contains(i) by {
                            let k = choose|k: int| 0 <= k < s.len() && #[trigger] in_span(s[k], i);
                            if k == s.len() - 1 {
                                assert(in_span(fin[k], i));
                            } else {
                                assert(fin[k] == s[k]);
                                assert(in_span(fin[k], i));
                            }
                        }
                    }
                    assert(spans_set(s).contains(start)) by {
                        assert(in_span(s[s.len() - 1], start));
                    }
                }
            }
            return Some(start);
        }
        self.list = list;
        proof {
            assert(self.list@ =~= old_spans);
        }
        None
    }

    /// Pushes the range `index..index + 1`.
    fn dealloc(&mut self, index: usize)
        ensures
            final(self).spans() == old(self).spans().push((index, (index + 1) as usize)),
    {
        proof {
            use_type_invariant(&*self);
        }
        let ghost s = self.spans();
        let mut list: Vec<(usize, usize)> = Vec::new();
        std::mem::swap(&mut list, &mut self.list);
        list.push((index, index + 1));
        self.list = list;
        proof {
            let fin = self.spans();
            assert(fin.drop_last() =~= s);
            if !spans_set(s).contains(index) {
                assert(spans_set(fin) =~= spans_set(s).insert(index)) by {
                    assert forall|i: usize| spans_set(fin).contains(i) implies spans_set(s).insert(
                        index,
                    ).contains(i) by {
                        let k = choose|k: int| 0 <= k < fin.len() && #[trigger] in_span(fin[k], i);
                        if k < s.len() {
                            assert(in_span(s[k], i));
                        }
                    }
                    assert forall|i: usize| spans_set(s).insert(index).contains(i) implies spans_set(
                        fin,
                    ).contains(i) by {
                        if i == index {
                            assert(in_span(fin[s.len() as int], i));
                        } else {
                            let k = choose|k: int| 0 <= k < s.len() && #[trigger] in_span(s[k], i);
                            assert(in_span(fin[k], i));
                        }
                    }
                }
                assert forall|k: int| 0 <= k < s.len() implies (#[trigger] s[k]).1 <= index || index
                    + 1 <= s[k].0 by {
                    if s[k].0 <= index && index < s[k].1 {
                        assert(in_span(s[k], index));
                    }
                }
            }
        }
    }
}

} // verus!
