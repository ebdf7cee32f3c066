use crate::cal::order::before;
use crate::cal::order::earlier;
use crate::cal::order::later;
use crate::cal::order::lemma_total_order;
use crate::cal::order::total_order;
use core::cmp::Ordering;
use vstd::prelude::*;
use vstd::std_specs::cmp::OrdSpec;
use vstd::std_specs::cmp::PartialEqSpec;
use vstd::std_specs::cmp::PartialEqSpecImpl;
use vstd::std_specs::cmp::PartialOrdSpec;
use vstd::std_specs::cmp::PartialOrdSpecImpl;

verus! {

/// A half-open span `[start, end)` over a totally ordered, copyable type.
///
/// A well-formed interval has `start` strictly before `end`. Intervals sort by
/// `start`, then by `end`.
#[derive(Copy, Debug, Eq, Ord)]
pub struct Interval<T> {
    pub start: T,
    pub end: T,
}

/// Whether some interval of `s` holds the point `t`.
pub open spec fn covered<T: Ord + Copy>(s: Seq<Interval<T>>, t: T) -> bool {
    exists|k: int| 0 <= k < s.len() && (#[trigger] s[k]).contains(t)
}

impl<T: Ord + Copy> Interval<T> {
    /// `start` lies strictly before `end`.
    pub open spec fn wf(self) -> bool {
        before(self.start, self.end)
    }

    /// The point `t` lies in `[start, end)`.
    pub open spec fn contains(self, t: T) -> bool {
        !before(t, self.start) && before(t, self.end)
    }

    /// The common part of two intervals: from the later start to the earlier
    /// end, when that is a span at all.
    pub open spec fn meet(self, other: Interval<T>) -> Option<Interval<T>> {
        let start = later(self.start, other.start);
        let end = earlier(self.end, other.end);
        if before(start, end) {
            Some(Interval { start, end })
        } else {
            None
        }
    }

    /// What is left of `self` once `other` is taken away, in ascending order:
    /// `self` where the two share nothing, else the part ahead of the common
    /// span and the part behind it, each only where it is a span at all.
    pub open spec fn pieces(self, other: Interval<T>) -> Seq<Interval<T>> {
        match self.meet(other) {
            None => seq![self],
            Some(common) => leading(self, common) + trailing(self, common),
        }
    }

    /// How `self` sorts against `other`: by `start`, and by `end` between
    /// equal starts.
    pub open spec fn standing(self, other: Interval<T>) -> Ordering {
        if before(self.start, other.start) {
            Ordering::Less
        } else if before(other.start, self.start) {
            Ordering::Greater
        } else if before(self.end, other.end) {
            Ordering::Less
        } else if before(other.end, self.end) {
            Ordering::Greater
        } else {
            Ordering::Equal
        }
    }

    /// Makes the interval `[start, end)`.
    pub fn new(start: T, end: T) -> (r: Interval<T>)
        requires
            before(start, end),
        ensures
            r == (Interval { start, end }),
            r.wf(),
    {
        Interval { start, end }
    }

    /// The overlap of `self` and `other`, or `None` where they share no point.
    /// Intervals that only touch at a boundary share none.
    pub fn intersection(&self, other: &Interval<T>) -> (r: Option<Interval<T>>)
        requires
            total_order::<T>(),
        ensures
            r == self.meet(*other),
            r == other.meet(*self),
            r matches Some(common) ==> common.wf(),
            self.end == other.start || other.end == self.start ==> r.is_none(),
    {
        proof {
            lemma_total_order::<T>();
        }
        let end = if other.end < self.end {
            other.end
        } else {
            self.end
        };
        let start = if other.start < self.start {
            self.start
        } else {
            other.start
        };
        if start < end {
            Some(Interval { start, end })
        } else {
            None
        }
    }

    /// Starts a walk over the parts of `self` that `other` does not cover.
    /// Every call starts a walk of its own.
    pub fn difference(&self, other: &Interval<T>) -> (r: Difference<T>)
        requires
            total_order::<T>(),
        ensures
            r.remaining() == self.pieces(*other),
            r.begun(*self, *other),
    {
        Difference { interval: *self, intersection: self.intersection(other) }
    }

    /// Compares by `start`, then by `end`.
    pub fn compare(&self, other: &Interval<T>) -> (r: Ordering)
        requires
            total_order::<T>(),
        ensures
            r == self.standing(*other),
    {
        proof {
            lemma_total_order::<T>();
        }
        if self.start < other.start {
            Ordering::Less
        } else if other.start < self.start {
            Ordering::Greater
        } else if self.end < other.end {
            Ordering::Less
        } else if other.end < self.end {
            Ordering::Greater
        } else {
            Ordering::Equal
        }
    }
}

/// The part of `whole` ahead of `common`, if there is any.
pub open spec fn leading<T: Ord + Copy>(whole: Interval<T>, common: Interval<T>) -> Seq<
    Interval<T>,
> {
    if before(whole.start, common.start) {
        seq![Interval { start: whole.start, end: common.start }]
    } else {
        seq![]
    }
}

/// The part of `whole` behind `common`, if there is any.
pub open spec fn trailing<T: Ord + Copy>(whole: Interval<T>, common: Interval<T>) -> Seq<
    Interval<T>,
> {
    if before(common.end, whole.end) {
        seq![Interval { start: common.end, end: whole.end }]
    } else {
        seq![]
    }
}

/// A walk over the parts of one interval that another does not cover. It
/// hands out one part per call of `next`, earliest first, and holds no more
/// than the span still to be cut.
pub struct Difference<T> {
    interval: Interval<T>,
    intersection: Option<Interval<T>>,
}

impl<T: Ord + Copy> Difference<T> {
    /// The parts still to come, in the order in which `next` hands them out.
    pub closed spec fn remaining(self) -> Seq<Interval<T>> {
        match self.intersection {
            None => seq![self.interval],
            Some(common) => leading(self.interval, common) + trailing(self.interval, common),
        }
    }

    /// The state in which a walk over `whole` without `other` begins.
    pub closed spec fn begun(self, whole: Interval<T>, other: Interval<T>) -> bool {
        self.interval == whole && self.intersection == whole.meet(other)
    }

    /// Hands out the next part, or `None` once all have been handed out.
    pub fn next(&mut self) -> (r: Option<Interval<T>>)
        requires
            total_order::<T>(),
        ensures
            old(self).remaining().len() > 0 ==> r == Some(old(self).remaining()[0])
                && final(self).remaining() == old(self).remaining().drop_first(),
            old(self).remaining().len() == 0 ==> r.is_none() && final(self).remaining()
                == old(self).remaining(),
    {
        proof {
            lemma_total_order::<T>();
        }
        let common = match self.intersection {
            Some(common) => common,
            None => {
                let whole = self.interval;
                self.intersection = Some(whole);
                assert(self.remaining() =~= seq![whole].drop_first());
                return Some(whole);
            },
        };
        if self.interval.start < common.start {
            let part = Interval { start: self.interval.start, end: common.start };
            self.interval.start = common.start;
            assert(self.remaining() =~= old(self).remaining().drop_first());
            Some(part)
        } else if common.end < self.interval.end {
            let part = Interval { start: common.end, end: self.interval.end };
            self.interval.end = common.end;
            assert(self.remaining() =~= old(self).remaining().drop_first());
            Some(part)
        } else {
            None
        }
    }
}

/// The intersection of two intervals does not depend on which comes first.
pub proof fn lemma_intersection_symmetric<T: Ord + Copy>(a: Interval<T>, b: Interval<T>)
    requires
        total_order::<T>(),
    ensures
        a.meet(b) == b.meet(a),
{
    lemma_total_order::<T>();
}

/// Two intervals of which one ends where the other starts share no point.
pub proof fn lemma_touching_share_nothing<T: Ord + Copy>(a: Interval<T>, b: Interval<T>)
    requires
        total_order::<T>(),
        a.end == b.start,
    ensures
        a.meet(b).is_none(),
        b.meet(a).is_none(),
{
    lemma_total_order::<T>();
}

/// The intersection holds exactly the points that lie in both intervals.
pub proof fn lemma_intersection_holds_common_points<T: Ord + Copy>(
    a: Interval<T>,
    b: Interval<T>,
    t: T,
)
    requires
        total_order::<T>(),
    ensures
        (a.meet(b) matches Some(common) && common.contains(t)) <==> a.contains(t) && b.contains(t),
{
    lemma_total_order::<T>();
}

/// The parts of `a` outside `b` come in ascending order, at most two of them,
/// each a span inside `a`, and where there are two the intersection lies
/// between them.
pub proof fn lemma_difference_ascending<T: Ord + Copy>(a: Interval<T>, b: Interval<T>)
    requires
        total_order::<T>(),
        a.wf(),
    ensures
        a.pieces(b).len() <= 2,
        forall|k: int|
            0 <= k < a.pieces(b).len() ==> {
                let part = #[trigger] a.pieces(b)[k];
                part.wf() && !before(part.start, a.start) && !before(a.end, part.end)
            },
        a.pieces(b).len() == 2 ==> a.meet(b) == Some(
            Interval { start: a.pieces(b)[0].end, end: a.pieces(b)[1].start },
        ),
{
    lemma_total_order::<T>();
}

/// The parts of `a` outside `b` and the intersection with `b` make up `a`
/// exactly: a point of `a` lies in one of the parts or in the intersection,
/// never in both, nothing else lies in either, and no part holds a point of
/// `b`.
pub proof fn lemma_difference_and_intersection_make_whole<T: Ord + Copy>(
    a: Interval<T>,
    b: Interval<T>,
    t: T,
)
    requires
        total_order::<T>(),
    ensures
        a.contains(t) <==> covered(a.pieces(b), t) || (a.meet(b) matches Some(common)
            && common.contains(t)),
        !(covered(a.pieces(b), t) && (a.meet(b) matches Some(common) && common.contains(t))),
        covered(a.pieces(b), t) ==> !b.contains(t),
{
    lemma_total_order::<T>();
    let parts = a.pieces(b);
    match a.meet(b) {
        None => {
            assert(parts[0] == a);
            if a.contains(t) {
                assert(parts[0].contains(t));
            }
        },
        Some(common) => {
            let head = Interval { start: a.start, end: common.start };
            let tail = Interval { start: common.end, end: a.end };
            if head.contains(t) {
                assert(parts[0] == head);
                assert(parts[0].contains(t));
            }
            if tail.contains(t) {
                assert(parts[parts.len() - 1] == tail);
                assert(parts[parts.len() - 1].contains(t));
            }
        },
    }
}

/// Two walks begun on the same pair of intervals hand out the same parts in
/// the same order.
pub proof fn lemma_difference_repeatable<T: Ord + Copy>(
    a: Interval<T>,
    b: Interval<T>,
    first: Difference<T>,
    second: Difference<T>,
)
    requires
        first.begun(a, b),
        second.begun(a, b),
    ensures
        first.remaining() == second.remaining(),
        first.remaining() == a.pieces(b),
{
}

/// Intervals are themselves totally ordered, which is what lets one serve as
/// a key: two intervals sort alike only when they are the same, each of two
/// different ones sorts before the other one way round, sorting before
/// carries over, and the comparison operators answer by the same order.
pub proof fn lemma_intervals_totally_ordered<T: Ord + Copy>(
    a: Interval<T>,
    b: Interval<T>,
    c: Interval<T>,
)
    requires
        total_order::<T>(),
    ensures
        a.standing(b) == Ordering::Equal <==> a == b,
        a.standing(b) == Ordering::Less <==> b.standing(a) == Ordering::Greater,
        a.standing(b) == Ordering::Less && b.standing(c) == Ordering::Less ==> a.standing(c)
            == Ordering::Less,
        PartialOrdSpec::partial_cmp_spec(&a, &b) == Some(a.standing(b)),
{
    lemma_total_order::<T>();
}

impl<T: Copy> Clone for Interval<T> {
    fn clone(&self) -> (r: Interval<T>)
        ensures
            r == *self,
    {
        *self
    }
}

impl<T: PartialEq> PartialEq for Interval<T> {
    /// Two intervals are equal when both ends are.
    fn eq(&self, other: &Interval<T>) -> (r: bool) {
        self.start == other.start && self.end == other.end
    }
}

impl<T: PartialEq> PartialEqSpecImpl for Interval<T> {
    open spec fn obeys_eq_spec() -> bool {
        T::obeys_eq_spec()
    }

    open spec fn eq_spec(&self, other: &Interval<T>) -> bool {
        self.start.eq_spec(&other.start) && self.end.eq_spec(&other.end)
    }
}

impl<T: Ord> PartialOrd for Interval<T> {
    /// Intervals sort by `start`, then by `end`.
    fn partial_cmp(&self, other: &Interval<T>) -> (r: Option<Ordering>) {
        match self.start.cmp(&other.start) {
            Ordering::Equal => Some(self.end.cmp(&other.end)),
            Ordering::Less => Some(Ordering::Less),
            Ordering::Greater => Some(Ordering::Greater),
        }
    }
}

impl<T: Ord> PartialOrdSpecImpl for Interval<T> {
    open spec fn obeys_partial_cmp_spec() -> bool {
        T::obeys_cmp_spec()
    }

    open spec fn partial_cmp_spec(&self, other: &Interval<T>) -> Option<Ordering> {
        match self.start.cmp_spec(&other.start) {
            Ordering::Equal => Some(self.end.cmp_spec(&other.end)),
            Ordering::Less => Some(Ordering::Less),
            Ordering::Greater => Some(Ordering::Greater),
        }
    }
}

} // verus!
