//! Half-open ranges `[start, end)` of addresses or page numbers.
use vstd::prelude::*;
use crate::memory::address::{AddressValue, ConvertFrom};

verus! {

/// The values from `start` up to, but not including, `end`.
#[derive(Clone, Copy, Debug)]
pub struct Range<T: AddressValue> {
    pub start: T,
    pub end: T,
}

impl<T: AddressValue> Range<T> {
    /// The first number of the range.
    pub open spec fn lo(self) -> int {
        self.start.value() as int
    }

    /// The number just past the range.
    pub open spec fn hi(self) -> int {
        self.end.value() as int
    }

    /// Whether `v` lies in `[start, end)`.
    pub open spec fn holds(self, v: int) -> bool {
        self.lo() <= v < self.hi()
    }

    /// Whether the two ranges overlap: each starts before the other ends.
    pub open spec fn overlaps(self, other: Range<T>) -> bool {
        self.lo() < other.hi() && self.hi() > other.lo()
    }

    /// How many values the range holds (0 when it is reversed).
    pub open spec fn size(self) -> nat {
        if self.lo() <= self.hi() {
            (self.hi() - self.lo()) as nat
        } else {
            0
        }
    }

    /// The range with the given bounds.
    pub fn from_bounds(start: T, end: T) -> (r: Self)
        ensures
            r.start == start,
            r.end == end,
    {
        Range { start, end }
    }

    /// Whether the two ranges overlap: `self` starts before `other` ends and
    /// ends after `other` starts.
    pub fn overlap_with(&self, other: &Range<T>) -> (r: bool)
        ensures
            r == self.overlaps(*other),
    {
        self.start.to_value() < other.end.to_value() && self.end.to_value() > other.start.to_value()
    }

    /// Every value of the range, in increasing order.
    pub fn iter(&self) -> (r: Vec<T>)
        ensures
            r@.len() == self.size(),
            forall|i: int| 0 <= i < r@.len() ==> #[trigger] r@[i].value() == self.lo() + i,
    {
        let start = self.start.to_value();
        let end = self.end.to_value();
        let mut out: Vec<T> = Vec::new();
        if start >= end {
            return out;
        }
        let mut v = start;
        while v < end
            invariant
                start <= v <= end,
                start == self.lo(),
                end == self.hi(),
                out@.len() == v - start,
                forall|i: int| 0 <= i < out@.len() ==> #[trigger] out@[i].value() == start + i,
            decreases end - v,
        {
            out.push(T::from_value(v));
            v = v + 1;
        }
        out
    }

    /// The number of values in the range.
    pub fn len(&self) -> (r: u64)
        requires
            self.lo() <= self.hi(),
        ensures
            r == self.hi() - self.lo(),
    {
        self.end.to_value() - self.start.to_value()
    }

    /// The same range in another unit: each bound converted on its own.
    pub fn into<U: AddressValue + ConvertFrom<T>>(self) -> (r: Range<U>)
        requires
            U::convert_ok(self.start),
            U::convert_ok(self.end),
        ensures
            r.start == U::convert_spec(self.start),
            r.end == U::convert_spec(self.end),
    {
        Range { start: U::convert_from(self.start), end: U::convert_from(self.end) }
    }

    /// The value `index` places after the start.
    pub fn get(&self, index: u64) -> (r: T)
        requires
            self.lo() <= self.hi(),
            index < self.hi() - self.lo(),
        ensures
            r.value() == self.lo() + index,
    {
        T::from_value(self.start.to_value() + index)
    }

    /// Whether `value` lies in the range.
    pub fn contains(&self, value: T) -> (r: bool)
        ensures
            r == self.holds(value.value() as int),
    {
        self.start.to_value() <= value.to_value() && value.to_value() < self.end.to_value()
    }
}

/// Converting a range with a conversion that keeps the number of each
/// bound keeps its length and the numbers it holds.
pub proof fn lemma_into_keeps_values<T: AddressValue, U: AddressValue + ConvertFrom<T>>(
    r: Range<T>,
    converted: Range<U>,
    v: int,
)
    requires
        converted.start == U::convert_spec(r.start),
        converted.end == U::convert_spec(r.end),
        U::convert_spec(r.start).value() == r.start.value(),
        U::convert_spec(r.end).value() == r.end.value(),
    ensures
        converted.size() == r.size(),
        converted.holds(v) == r.holds(v),
{
}

/// Overlap does not depend on the order of the two ranges.
pub proof fn lemma_overlap_symmetric<T: AddressValue>(a: Range<T>, b: Range<T>)
    ensures
        a.overlaps(b) == b.overlaps(a),
{
}

/// Two non-empty ranges overlap exactly when some value lies in both.
pub proof fn lemma_overlap_iff_common_value<T: AddressValue>(a: Range<T>, b: Range<T>)
    requires
        a.lo() < a.hi(),
        b.lo() < b.hi(),
    ensures
        a.overlaps(b) <==> exists|v: int| a.holds(v) && b.holds(v),
{
    if a.overlaps(b) {
        let v = if a.lo() < b.lo() { b.lo() } else { a.lo() };
        assert(a.holds(v) && b.holds(v));
    }
}

/// Every value `get` returns lies in the range.
pub proof fn lemma_get_in_range<T: AddressValue>(r: Range<T>, index: int, got: T)
    requires
        0 <= index < r.hi() - r.lo(),
        got.value() == r.lo() + index,
    ensures
        r.holds(got.value() as int),
{
}

} // verus!
