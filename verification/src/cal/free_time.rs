use crate::cal::all_spans;
use crate::cal::ascending;
use crate::cal::interval::covered;
use crate::cal::interval::Interval;
use crate::cal::laws::lemma_window_is_the_stretch;
use crate::cal::order::later;
use crate::cal::sorts_before;
use crate::cal::window;
use crate::cal::Cal;
use crate::cal::Event;
use crate::cal::EventsIn;
use std::ops::Range;
use vstd::prelude::*;

verus! {

/// The unbooked spans from `cursor` up to `end`, given the busy events still
/// ahead. Each busy event closes the gap that runs from the cursor to its
/// start, if that gap spans a point at all, and moves the cursor on to its
/// end; the cursor never moves back. What is left once the events are used
/// up is the last gap. Nothing comes once the cursor has reached `end`.
pub open spec fn gaps(busy: Seq<Event>, cursor: i64, end: i64) -> Seq<Interval<i64>>
    decreases busy.len(),
{
    if cursor >= end {
        Seq::empty()
    } else if busy.len() == 0 {
        seq![Interval { start: cursor, end }]
    } else {
        let first = busy[0].interval;
        let rest = gaps(busy.drop_first(), later(cursor, first.end), end);
        if cursor < first.start {
            seq![Interval { start: cursor, end: first.start }] + rest
        } else {
            rest
        }
    }
}

/// The unbooked spans of `range`: what the events that start inside `range`
/// leave open between `range.start` and `range.end`.
pub open spec fn free_time(events: Seq<Event>, range: Range<i64>) -> Seq<Interval<i64>> {
    gaps(window(events, range), range.start, range.end)
}

/// No event of `s` holds the point `t`.
pub open spec fn unbooked(s: Seq<Event>, t: i64) -> bool {
    forall|k: int| 0 <= k < s.len() ==> !(#[trigger] s[k]).interval.contains(t)
}

/// The events of `s` come by ascending start, and all start before `end`.
pub open spec fn lined_up(s: Seq<Event>, end: i64) -> bool {
    &&& forall|i: int, j: int|
        #![trigger s[i], s[j]]
        0 <= i < j < s.len() ==> s[i].interval.start <= s[j].interval.start
    &&& forall|i: int| 0 <= i < s.len() ==> (#[trigger] s[i]).interval.start < end
}

/// A walk over the unbooked spans of a range. It hands out one span per call
/// of `next`, earliest first, and reads the calendar only as far as that span
/// asks.
pub struct FreeTime<'a> {
    busy: EventsIn<'a>,
    cursor: i64,
    end: i64,
}

impl<'a> FreeTime<'a> {
    /// The spans still to come, in the order in which `next` hands them out.
    pub closed spec fn remaining(self) -> Seq<Interval<i64>> {
        gaps(self.busy.remaining(), self.cursor, self.end)
    }

    /// Hands out the next unbooked span, or `None` once the range is used up.
    /// A gap that spans no point is passed over, never handed out.
    pub fn next(&mut self) -> (r: Option<Interval<i64>>)
        ensures
            old(self).remaining().len() > 0 ==> r == Some(old(self).remaining()[0])
                && final(self).remaining() == old(self).remaining().drop_first(),
            old(self).remaining().len() == 0 ==> r.is_none() && final(self).remaining()
                == old(self).remaining(),
    {
        loop
            invariant
                self.remaining() == old(self).remaining(),
            decreases self.busy.remaining().len(),
        {
            if self.cursor >= self.end {
                return None;
            }
            let from = self.cursor;
            match self.busy.next() {
                None => {
                    self.cursor = self.end;
                    let gap = Interval { start: from, end: self.end };
                    assert(self.remaining() =~= old(self).remaining().drop_first());
                    return Some(gap);
                },
                Some(event) => {
                    if self.cursor < event.interval.end {
                        self.cursor = event.interval.end;
                    }
                    if from < event.interval.start {
                        let gap = Interval { start: from, end: event.interval.start };
                        assert(self.remaining() =~= old(self).remaining().drop_first());
                        return Some(gap);
                    }
                },
            }
        }
    }
}

impl Cal {
    /// A walk over the unbooked spans of `range`: the gaps that the events
    /// starting inside `range` leave open, earliest first.
    pub fn free_time_in<'a>(&'a self, range: Range<i64>) -> (r: FreeTime<'a>)
        requires
            self.wf(),
        ensures
            r.remaining() == free_time(self@, range),
            self@.len() == 0 && range.start < range.end ==> r.remaining() == seq![
                Interval { start: range.start, end: range.end },
            ],
            self@.len() == 1 && self@[0].interval == (Interval {
                start: range.start,
                end: range.end,
            }) ==> r.remaining() == Seq::<Interval<i64>>::empty(),
    {
        proof {
            if self@.len() == 0 {
                assert(self@ =~= Seq::<Event>::empty());
                lemma_free_time_of_empty_calendar(range);
            }
            if self@.len() == 1 {
                assert(self@ =~= seq![self@[0]]);
                if self@[0].interval == (Interval { start: range.start, end: range.end }) {
                    lemma_free_time_under_one_event(self@[0], range);
                }
            }
        }
        let cursor = range.start;
        let end = range.end;
        FreeTime { busy: self.events_in(range), cursor, end }
    }
}

/// The events that a range picks out of a calendar come by ascending start,
/// all start before the end of the range, and each spans a point.
proof fn lemma_window_lined_up(events: Seq<Event>, range: Range<i64>)
    requires
        ascending(events),
        all_spans(events),
    ensures
        all_spans(window(events, range)),
        lined_up(window(events, range), range.end),
{
    lemma_window_is_the_stretch(events, range);
    let busy = window(events, range);
    assert forall|i: int, j: int| 0 <= i < j < busy.len() implies busy[i].interval.start
        <= busy[j].interval.start by {
        assert(sorts_before(busy[i].interval, busy[j].interval));
    }
}

/// The spans of `gaps` come in ascending order with booked time between each
/// two, each spans a point, and none reaches below the cursor or beyond the
/// end.
pub proof fn lemma_gaps_ascending(busy: Seq<Event>, cursor: i64, end: i64)
    requires
        all_spans(busy),
        lined_up(busy, end),
    ensures
        forall|k: int|
            0 <= k < gaps(busy, cursor, end).len() ==> {
                let gap = #[trigger] gaps(busy, cursor, end)[k];
                cursor <= gap.start < gap.end <= end
            },
        forall|i: int, j: int|
            #![trigger gaps(busy, cursor, end)[i], gaps(busy, cursor, end)[j]]
            0 <= i < j < gaps(busy, cursor, end).len() ==> gaps(busy, cursor, end)[i].end < gaps(
                busy,
                cursor,
                end,
            )[j].start,
    decreases busy.len(),
{
    if cursor < end && busy.len() > 0 {
        let first = busy[0].interval;
        let tail = busy.drop_first();
        let onward = later(cursor, first.end);
        assert forall|i: int| 0 <= i < tail.len() implies tail[i] == busy[i + 1] by {}
        lemma_gaps_ascending(tail, onward, end);
        let rest = gaps(tail, onward, end);
        let all = gaps(busy, cursor, end);
        if cursor < first.start {
            assert forall|k: int| 0 < k < all.len() implies all[k] == rest[k - 1] by {}
            assert forall|i: int, j: int| 0 <= i < j < all.len() implies all[i].end
                < all[j].start by {
                assert(all[j] == rest[j - 1]);
                if i > 0 {
                    assert(all[i] == rest[i - 1]);
                }
            }
        }
    }
}

/// A point is covered by `gaps` exactly when it lies from the cursor up to
/// the end and no busy event holds it.
pub proof fn lemma_gaps_are_unbooked(busy: Seq<Event>, cursor: i64, end: i64, t: i64)
    requires
        all_spans(busy),
        lined_up(busy, end),
    ensures
        covered(gaps(busy, cursor, end), t) <==> cursor <= t < end && unbooked(busy, t),
    decreases busy.len(),
{
    let all = gaps(busy, cursor, end);
    lemma_gaps_ascending(busy, cursor, end);
    if cursor >= end {
    } else if busy.len() == 0 {
        assert(all[0].contains(t) <==> cursor <= t < end);
    } else {
        let first = busy[0].interval;
        let tail = busy.drop_first();
        let onward = later(cursor, first.end);
        assert forall|i: int| 0 <= i < tail.len() implies tail[i] == busy[i + 1] by {}
        lemma_gaps_are_unbooked(tail, onward, end, t);
        lemma_gaps_ascending(tail, onward, end);
        let rest = gaps(tail, onward, end);
        let gap = Interval { start: cursor, end: first.start };
        assert(unbooked(busy, t) <==> !first.contains(t) && unbooked(tail, t)) by {
            if unbooked(busy, t) {
                assert(!busy[0].interval.contains(t));
                assert forall|k: int| 0 <= k < tail.len() implies !(#[trigger] tail[k]).interval.contains(
                    t,
                ) by {
                    assert(!busy[k + 1].interval.contains(t));
                }
            }
            if !first.contains(t) && unbooked(tail, t) {
                assert forall|k: int| 0 <= k < busy.len() implies !(#[trigger] busy[k]).interval.contains(
                    t,
                ) by {
                    if k > 0 {
                        assert(!tail[k - 1].interval.contains(t));
                    }
                }
            }
        }
        if cursor < first.start {
            assert(all[0] == gap);
            assert forall|k: int| 0 < k < all.len() implies all[k] == rest[k - 1] by {}
            assert(covered(all, t) <==> gap.contains(t) || covered(rest, t)) by {
                if covered(all, t) {
                    let k = choose|k: int| 0 <= k < all.len() && (#[trigger] all[k]).contains(t);
                    if k > 0 {
                        assert(rest[k - 1].contains(t));
                    }
                }
                if covered(rest, t) {
                    let k = choose|k: int| 0 <= k < rest.len() && (#[trigger] rest[k]).contains(t);
                    assert(all[k + 1].contains(t));
                }
                if gap.contains(t) {
                    assert(all[0].contains(t));
                }
            }
            if gap.contains(t) {
                assert forall|k: int| 0 <= k < tail.len() implies !(#[trigger] tail[k]).interval.contains(
                    t,
                ) by {
                    assert(busy[0].interval.start <= busy[k + 1].interval.start);
                }
            }
        }
        if covered(rest, t) {
            let k = choose|k: int| 0 <= k < rest.len() && (#[trigger] rest[k]).contains(t);
            assert(onward <= rest[k].start);
        }
    }
}

/// There is at most one gap more than there are busy events.
pub proof fn lemma_gaps_count(busy: Seq<Event>, cursor: i64, end: i64)
    ensures
        gaps(busy, cursor, end).len() <= busy.len() + 1,
    decreases busy.len(),
{
    if cursor < end && busy.len() > 0 {
        lemma_gaps_count(busy.drop_first(), later(cursor, busy[0].interval.end), end);
    }
}

/// A range has at most one free span more than the calendar has events that
/// start inside it.
pub proof fn lemma_free_time_count(events: Seq<Event>, range: Range<i64>)
    ensures
        free_time(events, range).len() <= window(events, range).len() + 1,
        window(events, range).len() <= events.len(),
{
    lemma_gaps_count(window(events, range), range.start, range.end);
    events.lemma_filter_len(|e: Event| range.start <= e.interval.start < range.end);
}

/// Over an empty calendar the whole range is free: one span from its start
/// to its end, or none where the range spans no point.
pub proof fn lemma_free_time_of_empty_calendar(range: Range<i64>)
    ensures
        range.start < range.end ==> free_time(Seq::<Event>::empty(), range) == seq![
            Interval { start: range.start, end: range.end },
        ],
        range.start >= range.end ==> free_time(Seq::<Event>::empty(), range) == Seq::<
            Interval<i64>,
        >::empty(),
{
    reveal(Seq::filter);
    assert(window(Seq::<Event>::empty(), range) =~= Seq::<Event>::empty());
}

/// Under a single event that occupies the range from its start to its end,
/// nothing is free.
pub proof fn lemma_free_time_under_one_event(event: Event, range: Range<i64>)
    requires
        event.interval.start == range.start,
        event.interval.end == range.end,
    ensures
        free_time(seq![event], range) == Seq::<Interval<i64>>::empty(),
{
    reveal_with_fuel(Seq::filter, 2);
    let only = seq![event];
    if range.start < range.end {
        assert(only.drop_last() =~= Seq::<Event>::empty());
        assert(window(only, range) =~= only);
        assert(only.drop_first() =~= Seq::<Event>::empty());
        assert(gaps(only.drop_first(), range.end, range.end) =~= Seq::<Interval<i64>>::empty());
    }
}

/// The free spans of a range come in ascending order with booked time between
/// each two, each spans a point, and all lie inside the range.
pub proof fn lemma_free_time_ascending(events: Seq<Event>, range: Range<i64>)
    requires
        ascending(events),
        all_spans(events),
    ensures
        forall|k: int|
            0 <= k < free_time(events, range).len() ==> {
                let gap = #[trigger] free_time(events, range)[k];
                range.start <= gap.start < gap.end <= range.end
            },
        forall|i: int, j: int|
            #![trigger free_time(events, range)[i], free_time(events, range)[j]]
            0 <= i < j < free_time(events, range).len() ==> free_time(events, range)[i].end
                < free_time(events, range)[j].start,
{
    lemma_window_lined_up(events, range);
    lemma_gaps_ascending(window(events, range), range.start, range.end);
}

/// Free time is what the events of the window leave open: a point lies in a
/// free span exactly when it lies inside the range and in no stored event
/// that starts inside the range.
pub proof fn lemma_free_time_is_unbooked(events: Seq<Event>, range: Range<i64>, t: i64)
    requires
        ascending(events),
        all_spans(events),
    ensures
        covered(free_time(events, range), t) <==> range.start <= t < range.end && forall|i: int|
            0 <= i < events.len() && range.start <= (#[trigger] events[i]).interval.start
                < range.end ==> !events[i].interval.contains(t),
{
    lemma_window_lined_up(events, range);
    lemma_window_is_the_stretch(events, range);
    let busy = window(events, range);
    lemma_gaps_are_unbooked(busy, range.start, range.end, t);
    if unbooked(busy, t) {
        assert forall|i: int|
            0 <= i < events.len() && range.start <= (#[trigger] events[i]).interval.start
                < range.end implies !events[i].interval.contains(t) by {
            assert(busy.contains(events[i]));
            let k = choose|k: int| 0 <= k < busy.len() && busy[k] == events[i];
            assert(!busy[k].interval.contains(t));
        }
    }
    if forall|i: int|
        0 <= i < events.len() && range.start <= (#[trigger] events[i]).interval.start < range.end
            ==> !events[i].interval.contains(t) {
        assert forall|k: int| 0 <= k < busy.len() implies !(#[trigger] busy[k]).interval.contains(
            t,
        ) by {
            assert(events.contains(busy[k]));
            let i = choose|i: int| 0 <= i < events.len() && events[i] == busy[k];
            assert(range.start <= events[i].interval.start < range.end);
        }
    }
}

} // verus!
