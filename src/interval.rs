use vstd::prelude::*;

verus! {

/// A totally ordered key type for interval endpoints.
///
/// Each key is viewed as a mathematical integer (`rank`); all comparisons
/// performed by the tree agree with the order of those integers.
pub trait IntervalKey: Copy + Sized {
    /// The position of this key in the total order.
    spec fn rank(&self) -> int;

    /// Keys of equal rank are the same key.
    proof fn lemma_rank_injective(a: Self, b: Self)
        ensures
            a.rank() == b.rank() ==> a == b,
    ;

    /// Strict comparison of two keys.
    fn less(&self, other: &Self) -> (r: bool)
        ensures
            r == (self.rank() < other.rank()),
    ;

    /// The key that immediately follows this one, if the type has one.
    fn successor(&self) -> (r: Option<Self>)
        ensures
            r matches Some(s) ==> s.rank() == self.rank() + 1,
            r is None ==> forall|k: Self| #[trigger] k.rank() <= self.rank(),
    ;
}

impl IntervalKey for u8 {
    open spec fn rank(&self) -> int {
        *self as int
    }

    proof fn lemma_rank_injective(a: Self, b: Self) {
    }

    fn less(&self, other: &Self) -> (r: bool) {
        *self < *other
    }

    fn successor(&self) -> (r: Option<Self>) {
        self.checked_add(1)
    }
}

impl IntervalKey for u16 {
    open spec fn rank(&self) -> int {
        *self as int
    }

    proof fn lemma_rank_injective(a: Self, b: Self) {
    }

    fn less(&self, other: &Self) -> (r: bool) {
        *self < *other
    }

    fn successor(&self) -> (r: Option<Self>) {
        self.checked_add(1)
    }
}

impl IntervalKey for u32 {
    open spec fn rank(&self) -> int {
        *self as int
    }

    proof fn lemma_rank_injective(a: Self, b: Self) {
    }

    fn less(&self, other: &Self) -> (r: bool) {
        *self < *other
    }

    fn successor(&self) -> (r: Option<Self>) {
        self.checked_add(1)
    }
}

impl IntervalKey for u64 {
    open spec fn rank(&self) -> int {
        *self as int
    }

    proof fn lemma_rank_injective(a: Self, b: Self) {
    }

    fn less(&self, other: &Self) -> (r: bool) {
        *self < *other
    }

    fn successor(&self) -> (r: Option<Self>) {
        self.checked_add(1)
    }
}

impl IntervalKey for usize {
    open spec fn rank(&self) -> int {
        *self as int
    }

    proof fn lemma_rank_injective(a: Self, b: Self) {
    }

    fn less(&self, other: &Self) -> (r: bool) {
        *self < *other
    }

    fn successor(&self) -> (r: Option<Self>) {
        self.checked_add(1)
    }
}

impl IntervalKey for i32 {
    open spec fn rank(&self) -> int {
        *self as int
    }

    proof fn lemma_rank_injective(a: Self, b: Self) {
    }

    fn less(&self, other: &Self) -> (r: bool) {
        *self < *other
    }

    fn successor(&self) -> (r: Option<Self>) {
        self.checked_add(1)
    }
}

impl IntervalKey for i64 {
    open spec fn rank(&self) -> int {
        *self as int
    }

    proof fn lemma_rank_injective(a: Self, b: Self) {
    }

    fn less(&self, other: &Self) -> (r: bool) {
        *self < *other
    }

    fn successor(&self) -> (r: Option<Self>) {
        self.checked_add(1)
    }
}

/// The mathematical form of an interval: its start and end ranks.
pub type Span = (int, int);

/// `a` orders strictly before `b`: by start, then by end.
pub open spec fn span_lt(a: Span, b: Span) -> bool {
    a.0 < b.0 || (a.0 == b.0 && a.1 < b.1)
}

/// The half-open span is non-empty.
pub open spec fn span_valid(a: Span) -> bool {
    a.0 < a.1
}

/// The greater of two integers.
pub open spec fn max_int(a: int, b: int) -> int {
    if a < b { b } else { a }
}

/// The lesser of two integers.
pub open spec fn min_int(a: int, b: int) -> int {
    if a < b { a } else { b }
}

/// The common part of two spans (possibly empty).
pub open spec fn span_meet(a: Span, b: Span) -> Span {
    (max_int(a.0, b.0), min_int(a.1, b.1))
}

/// Two spans share at least one point.
pub open spec fn spans_overlap(a: Span, b: Span) -> bool {
    span_valid(span_meet(a, b))
}

/// A half-open interval `[start, end)`.
#[derive(Debug, Clone, Copy, PartialEq, Eq, PartialOrd, Ord)]
pub struct Interval<T: IntervalKey> {
    pub start: T,
    pub end: T,
}

impl<T: IntervalKey> View for Interval<T> {
    type V = Span;

    open spec fn view(&self) -> Span {
        (self.start.rank(), self.end.rank())
    }
}

impl<T: IntervalKey> Interval<T> {
    /// The interval `[start, end)`; it is empty unless `start < end`.
    pub fn new(start: T, end: T) -> (r: Self)
        ensures
            r.start == start,
            r.end == end,
    {
        Interval { start, end }
    }

    /// The interval `[lo, hi]`, written as `[lo, hi + 1)`; `None` when `hi` has
    /// no successor.
    pub fn from_inclusive(lo: T, hi: T) -> (r: Option<Self>)
        ensures
            r matches Some(i) ==> i.start == lo && i@.1 == hi.rank() + 1,
            r is None ==> forall|k: T| #[trigger] k.rank() <= hi.rank(),
    {
        match hi.successor() {
            Some(end) => Some(Interval { start: lo, end }),
            None => None,
        }
    }

    /// The interval holds at least one point.
    pub fn is_valid(&self) -> (r: bool)
        ensures
            r == span_valid(self@),
    {
        self.start.less(&self.end)
    }

    /// Orders two intervals by start, then by end.
    pub fn compare(&self, other: &Self) -> (r: core::cmp::Ordering)
        ensures
            (r == core::cmp::Ordering::Less) == span_lt(self@, other@),
            (r == core::cmp::Ordering::Greater) == span_lt(other@, self@),
            (r == core::cmp::Ordering::Equal) == (self@ == other@),
    {
        if self.start.less(&other.start) {
            core::cmp::Ordering::Less
        } else if other.start.less(&self.start) {
            core::cmp::Ordering::Greater
        } else if self.end.less(&other.end) {
            core::cmp::Ordering::Less
        } else if other.end.less(&self.end) {
            core::cmp::Ordering::Greater
        } else {
            core::cmp::Ordering::Equal
        }
    }

    /// The common part of two intervals, when it is non-empty.
    pub fn intersect(&self, other: &Self) -> (r: Option<Self>)
        ensures
            r is Some == spans_overlap(self@, other@),
            r matches Some(i) ==> i@ == span_meet(self@, other@),
    {
        let start = if self.start.less(&other.start) { other.start } else { self.start };
        let end = if self.end.less(&other.end) { self.end } else { other.end };
        let result = Interval::new(start, end);
        if result.is_valid() {
            Some(result)
        } else {
            None
        }
    }
}

impl<T: IntervalKey> From<core::ops::Range<T>> for Interval<T> {
    /// The interval `[range.start, range.end)`.
    fn from(range: core::ops::Range<T>) -> (r: Self) {
        Interval::new(range.start, range.end)
    }
}

impl<T: IntervalKey> vstd::std_specs::convert::FromSpecImpl<core::ops::Range<T>> for Interval<T> {
    open spec fn obeys_from_spec() -> bool {
        true
    }

    open spec fn from_spec(v: core::ops::Range<T>) -> Self {
        Interval { start: v.start, end: v.end }
    }
}

impl<'a, T: IntervalKey> From<&'a core::ops::Range<T>> for Interval<T> {
    /// The interval `[range.start, range.end)`.
    fn from(range: &'a core::ops::Range<T>) -> (r: Self) {
        Interval::new(range.start, range.end)
    }
}

impl<'a, T: IntervalKey> vstd::std_specs::convert::FromSpecImpl<&'a core::ops::Range<T>> for Interval<T> {
    open spec fn obeys_from_spec() -> bool {
        true
    }

    open spec fn from_spec(v: &'a core::ops::Range<T>) -> Self {
        Interval { start: v.start, end: v.end }
    }
}

} // verus!
