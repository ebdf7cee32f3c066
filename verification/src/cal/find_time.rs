use crate::cal::all_spans;
use crate::cal::ascending;
use crate::cal::free_time::free_time;
use crate::cal::free_time::lemma_free_time_ascending;
use crate::cal::free_time::lemma_free_time_is_unbooked;
use crate::cal::interval::covered;
use crate::cal::interval::Interval;
use crate::cal::sorts_before;
use crate::cal::Cal;
use crate::cal::Event;
use core::cmp::Ordering;
use std::ops::Range;
use vstd::prelude::*;
use vstd::std_specs::iter::IteratorSpec;

verus! {

/// The span runs for at least `duration`.
pub open spec fn long_enough(span: Interval<i64>, duration: i64) -> bool {
    span.end - span.start >= duration
}

/// `inner` lies inside `outer`.
pub open spec fn inside(inner: Interval<i64>, outer: Interval<i64>) -> bool {
    outer.start <= inner.start && inner.end <= outer.end
}

/// The slot that a search over two sequences of intervals settles on. It
/// looks at the two leading intervals. Where their overlap runs for at least
/// `duration`, that overlap is the slot. Where they overlap for less, the
/// one that sorts first is dropped, and both are where neither does. Where
/// they do not overlap at all, both are dropped. The search goes on with what
/// is left and ends without a slot once either sequence is used up.
pub open spec fn first_fit(
    candidates: Seq<Interval<i64>>,
    free: Seq<Interval<i64>>,
    duration: i64,
) -> Option<Interval<i64>>
    decreases candidates.len() + free.len(),
{
    if candidates.len() == 0 || free.len() == 0 {
        None
    } else {
        let candidate = candidates[0];
        let open = free[0];
        match candidate.meet(open) {
            Some(common) => if long_enough(common, duration) {
                Some(common)
            } else if sorts_before(candidate, open) {
                first_fit(candidates.drop_first(), free, duration)
            } else if sorts_before(open, candidate) {
                first_fit(candidates, free.drop_first(), duration)
            } else {
                first_fit(candidates.drop_first(), free.drop_first(), duration)
            },
            None => first_fit(candidates.drop_first(), free.drop_first(), duration),
        }
    }
}

/// Whether `span` runs for at least `duration`, without leaving the range of
/// the machine's integers on the way.
pub fn runs_for(span: &Interval<i64>, duration: i64) -> (r: bool)
    ensures
        r == long_enough(*span, duration),
{
    span.end as i128 - span.start as i128 >= duration as i128
}

impl Cal {
    /// A slot of at least `duration` that lies both in one of the
    /// `candidates` and in free time of `range`, as a single pass over the
    /// two settles on it. Neither the candidates nor the free spans are read
    /// further than the search needs. The candidates come from an iterator
    /// that ends and keeps to the sequence it announces.
    pub fn find_time<I: Iterator<Item = Interval<i64>>>(
        &self,
        candidates: I,
        range: Range<i64>,
        duration: i64,
    ) -> (r: Option<Interval<i64>>)
        requires
            self.wf(),
            candidates.obeys_prophetic_iter_laws(),
            candidates.decrease() is Some,
        ensures
            r == first_fit(candidates.remaining(), free_time(self@, range), duration),
            r matches Some(slot) ==> slot.wf() && long_enough(slot, duration) && range.start
                <= slot.start && slot.end <= range.end,
    {
        let mut source = candidates;
        let mut free = self.free_time_in(range);
        let ghost ahead = source.remaining();
        let ghost gaps = free.remaining();
        let mut candidate = match source.next() {
            Some(candidate) => candidate,
            None => {
                return None;
            },
        };
        let mut open = match free.next() {
            Some(open) => open,
            None => {
                return None;
            },
        };
        assert(seq![candidate] + source.remaining() =~= ahead);
        assert(seq![open] + free.remaining() =~= gaps);
        loop
            invariant
                self.wf(),
                source.obeys_prophetic_iter_laws(),
                source.decrease() is Some,
                ahead == candidates.remaining(),
                gaps == free_time(self@, range),
                first_fit(ahead, gaps, duration) == first_fit(
                    seq![candidate] + source.remaining(),
                    seq![open] + free.remaining(),
                    duration,
                ),
            decreases source.decrease()->0 + free.remaining().len(),
        {
            let ghost ahead_now = seq![candidate] + source.remaining();
            let ghost gaps_now = seq![open] + free.remaining();
            proof {
                assert(ahead_now[0] == candidate && gaps_now[0] == open);
                assert(ahead_now.drop_first() =~= source.remaining());
                assert(gaps_now.drop_first() =~= free.remaining());
            }
            let mut drop_candidate = true;
            let mut drop_open = true;
            match candidate.intersection(&open) {
                Some(common) => {
                    if runs_for(&common, duration) {
                        proof {
                            lemma_found_slot_is_free(self@, ahead, range, duration, range.start);
                        }
                        return Some(common);
                    }
                    match candidate.compare(&open) {
                        Ordering::Less => {
                            drop_open = false;
                        },
                        Ordering::Greater => {
                            drop_candidate = false;
                        },
                        Ordering::Equal => {},
                    }
                },
                None => {},
            }
            assert(first_fit(ahead_now, gaps_now, duration) == first_fit(
                if drop_candidate {
                    ahead_now.drop_first()
                } else {
                    ahead_now
                },
                if drop_open {
                    gaps_now.drop_first()
                } else {
                    gaps_now
                },
                duration,
            ));
            if drop_candidate {
                candidate = match source.next() {
                    Some(candidate) => candidate,
                    None => {
                        return None;
                    },
                };
                assert(seq![candidate] + source.remaining() =~= ahead_now.drop_first());
            }
            if drop_open {
                open = match free.next() {
                    Some(open) => open,
                    None => {
                        return None;
                    },
                };
                assert(seq![open] + free.remaining() =~= gaps_now.drop_first());
            }
        }
    }
}

/// A slot that the search settles on runs for at least the duration asked
/// for, and it is the overlap of one of the candidates with one of the free
/// spans, so it lies inside both.
pub proof fn lemma_first_fit_sound(
    candidates: Seq<Interval<i64>>,
    free: Seq<Interval<i64>>,
    duration: i64,
)
    ensures
        first_fit(candidates, free, duration) matches Some(slot) ==> long_enough(slot, duration)
            && exists|i: int, j: int|
            0 <= i < candidates.len() && 0 <= j < free.len() && (#[trigger] candidates[i]).meet(
                #[trigger] free[j],
            ) == Some(slot) && inside(slot, candidates[i]) && inside(slot, free[j]),
    decreases candidates.len() + free.len(),
{
    if candidates.len() > 0 && free.len() > 0 {
        let candidate = candidates[0];
        let open = free[0];
        let fewer = candidates.drop_first();
        let less = free.drop_first();
        assert forall|i: int| 0 <= i < fewer.len() implies fewer[i] == candidates[i + 1] by {}
        assert forall|j: int| 0 <= j < less.len() implies less[j] == free[j + 1] by {}
        let (rest_c, rest_f, dc, df) = match candidate.meet(open) {
            Some(common) => if long_enough(common, duration) {
                (candidates, free, 0int, 0int)
            } else if sorts_before(candidate, open) {
                (fewer, free, 1int, 0int)
            } else if sorts_before(open, candidate) {
                (candidates, less, 0int, 1int)
            } else {
                (fewer, less, 1int, 1int)
            },
            None => (fewer, less, 1int, 1int),
        };
        if dc + df > 0 {
            lemma_first_fit_sound(rest_c, rest_f, duration);
            if let Some(slot) = first_fit(rest_c, rest_f, duration) {
                let (i, j) = choose|i: int, j: int|
                    0 <= i < rest_c.len() && 0 <= j < rest_f.len() && (#[trigger] rest_c[i]).meet(
                        #[trigger] rest_f[j],
                    ) == Some(slot) && inside(slot, rest_c[i]) && inside(slot, rest_f[j]);
                assert(candidates[i + dc].meet(free[j + df]) == Some(slot));
                assert(inside(slot, candidates[i + dc]) && inside(slot, free[j + df]));
            }
        } else {
            let slot = candidate.meet(open)->0;
            assert(candidates[0].meet(free[0]) == Some(slot));
            assert(inside(slot, candidates[0]) && inside(slot, free[0]));
        }
    }
}

/// A slot found against a calendar is free and asked for: it spans a point,
/// runs for at least the duration, lies inside the range, and each of its
/// points lies in one of the candidates and in no stored event that starts
/// inside the range.
pub proof fn lemma_found_slot_is_free(
    events: Seq<Event>,
    candidates: Seq<Interval<i64>>,
    range: Range<i64>,
    duration: i64,
    t: i64,
)
    requires
        ascending(events),
        all_spans(events),
    ensures
        first_fit(candidates, free_time(events, range), duration) matches Some(slot) ==> {
            &&& slot.start < slot.end
            &&& long_enough(slot, duration)
            &&& range.start <= slot.start && slot.end <= range.end
            &&& slot.contains(t) ==> covered(candidates, t) && forall|i: int|
                0 <= i < events.len() && range.start <= (#[trigger] events[i]).interval.start
                    < range.end ==> !events[i].interval.contains(t)
        },
{
    let free = free_time(events, range);
    lemma_first_fit_sound(candidates, free, duration);
    lemma_free_time_ascending(events, range);
    lemma_free_time_is_unbooked(events, range, t);
    if let Some(slot) = first_fit(candidates, free, duration) {
        let (i, j) = choose|i: int, j: int|
            0 <= i < candidates.len() && 0 <= j < free.len() && (#[trigger] candidates[i]).meet(
                #[trigger] free[j],
            ) == Some(slot) && inside(slot, candidates[i]) && inside(slot, free[j]);
        if slot.contains(t) {
            assert(candidates[i].contains(t));
            assert(free[j].contains(t));
        }
    }
}

} // verus!
