pub mod find_time;
pub mod free_time;
pub mod interval;
pub mod laws;
pub mod order;

use crate::cal::interval::Interval;
use crate::cal::laws::lemma_filter_stretch;
use crate::cal::laws::lemma_rank_splits;
use crate::cal::laws::lemma_with_event_ascending;
use core::cmp::Ordering;
use std::ops::Range;
use vstd::prelude::*;
use vstd::std_specs::cmp::PartialEqSpecImpl;
use vstd::std_specs::cmp::PartialOrdSpecImpl;

verus! {

/// A scheduled, occupied stretch of the timeline. Who set it up and what it
/// is about ride along; the calendar files an event under its interval alone.
///
/// The timeline is one line of whole numbers, the same for every event. In
/// what unit it counts, and from where, is up to the caller.
#[derive(Debug)]
pub struct Event {
    pub organizer: String,
    pub description: String,
    pub interval: Interval<i64>,
}

/// `a` sorts before `b`: by `start`, and by `end` between equal starts.
pub open spec fn sorts_before(a: Interval<i64>, b: Interval<i64>) -> bool {
    a.start < b.start || (a.start == b.start && a.end < b.end)
}

/// Every event of `s` sorts before each one after it, so no interval occurs
/// twice.
pub open spec fn ascending(s: Seq<Event>) -> bool {
    forall|i: int, j: int|
        #![trigger s[i], s[j]]
        0 <= i < j < s.len() ==> sorts_before(s[i].interval, s[j].interval)
}

/// Every event of `s` spans at least one point.
pub open spec fn all_spans(s: Seq<Event>) -> bool {
    forall|i: int| 0 <= i < s.len() ==> (#[trigger] s[i]).interval.start < s[i].interval.end
}

/// Some event of `s` occupies exactly `interval`.
pub open spec fn holds(s: Seq<Event>, interval: Interval<i64>) -> bool {
    exists|i: int| 0 <= i < s.len() && (#[trigger] s[i]).interval == interval
}

/// How many events of `s` sort before `interval`; in an ascending sequence,
/// the place at which an event with that interval belongs.
pub open spec fn rank(s: Seq<Event>, interval: Interval<i64>) -> int {
    s.filter(|e: Event| sorts_before(e.interval, interval)).len() as int
}

/// Whether `s` takes `event` in: it does unless it already holds an event
/// with the same interval.
pub open spec fn accepts(s: Seq<Event>, event: Event) -> bool {
    !holds(s, event.interval)
}

/// The sequence after an event has been offered to it: with the event at its
/// place where it is taken in, else unchanged.
pub open spec fn with_event(s: Seq<Event>, event: Event) -> Seq<Event> {
    if accepts(s, event) {
        s.insert(rank(s, event.interval), event)
    } else {
        s
    }
}

/// The events of `s` that start inside `range`, in the order of `s`. Only the
/// start is looked at: where an event ends plays no part.
pub open spec fn window(s: Seq<Event>, range: Range<i64>) -> Seq<Event> {
    s.filter(|e: Event| range.start <= e.interval.start < range.end)
}

/// The stored sequence that comes of offering the events of `list` to an
/// empty calendar one by one, from the front. Of several events with one
/// interval the first stays.
pub open spec fn filed(list: Seq<Event>) -> Seq<Event>
    decreases list.len(),
{
    if list.len() == 0 {
        Seq::empty()
    } else {
        with_event(filed(list.drop_last()), list.last())
    }
}

impl Event {
    /// Makes an event.
    pub fn new(organizer: String, description: String, interval: Interval<i64>) -> (r: Event)
        ensures
            r == (Event { organizer, description, interval }),
    {
        Event { organizer, description, interval }
    }

    /// Whether the two events share a point of the timeline.
    pub fn overlap(&self, other: &Event) -> (r: bool)
        ensures
            r == self.interval.meet(other.interval).is_some(),
            self.interval.wf() && other.interval.wf() ==> (r <==> exists|t: i64|
                self.interval.contains(t) && other.interval.contains(t)),
    {
        proof {
            if self.interval.wf() && other.interval.wf() {
                match self.interval.meet(other.interval) {
                    Some(common) => {
                        assert(self.interval.contains(common.start) && other.interval.contains(
                            common.start,
                        ));
                    },
                    None => {},
                }
            }
        }
        self.interval.intersection(&other.interval).is_some()
    }
}

impl Clone for Event {
    fn clone(&self) -> (r: Event)
        ensures
            r == *self,
    {
        Event {
            organizer: self.organizer.clone(),
            description: self.description.clone(),
            interval: self.interval,
        }
    }
}

impl PartialEq for Event {
    /// Two events are equal when their intervals are; what else they carry
    /// is not looked at.
    fn eq(&self, other: &Event) -> (r: bool) {
        self.interval.start == other.interval.start && self.interval.end == other.interval.end
    }
}

impl PartialEqSpecImpl for Event {
    open spec fn obeys_eq_spec() -> bool {
        true
    }

    open spec fn eq_spec(&self, other: &Event) -> bool {
        self.interval == other.interval
    }
}

impl Eq for Event {

}

impl PartialOrd for Event {
    /// Events sort as their intervals do.
    fn partial_cmp(&self, other: &Event) -> (r: Option<Ordering>) {
        if self.interval.start < other.interval.start {
            Some(Ordering::Less)
        } else if self.interval.start > other.interval.start {
            Some(Ordering::Greater)
        } else if self.interval.end < other.interval.end {
            Some(Ordering::Less)
        } else if self.interval.end > other.interval.end {
            Some(Ordering::Greater)
        } else {
            Some(Ordering::Equal)
        }
    }
}

impl PartialOrdSpecImpl for Event {
    open spec fn obeys_partial_cmp_spec() -> bool {
        true
    }

    open spec fn partial_cmp_spec(&self, other: &Event) -> Option<Ordering> {
        if sorts_before(self.interval, other.interval) {
            Some(Ordering::Less)
        } else if sorts_before(other.interval, self.interval) {
            Some(Ordering::Greater)
        } else {
            Some(Ordering::Equal)
        }
    }
}

/// An ordered store of events, at most one per interval.
#[derive(Debug)]
pub struct Cal {
    events: Vec<Event>,
}

impl View for Cal {
    type V = Seq<Event>;

    /// The stored events, earliest first.
    closed spec fn view(&self) -> Seq<Event> {
        self.events@
    }
}

impl Cal {
    /// The events are in ascending order and each spans at least one point.
    pub open spec fn wf(self) -> bool {
        ascending(self@) && all_spans(self@)
    }

    /// An empty calendar.
    pub fn new() -> (r: Cal)
        ensures
            r@ == Seq::<Event>::empty(),
            r.wf(),
    {
        Cal { events: Vec::new() }
    }

    /// The calendar that holds the events of `list`, offered one by one from
    /// the front.
    pub fn from_events(list: &Vec<Event>) -> (r: Cal)
        requires
            all_spans(list@),
        ensures
            r.wf(),
            r@ == filed(list@),
    {
        let mut cal = Cal::new();
        let mut i: usize = 0;
        while i < list.len()
            invariant
                i <= list.len(),
                all_spans(list@),
                cal.wf(),
                cal@ == filed(list@.take(i as int)),
            decreases list.len() - i,
        {
            let event = list[i].clone();
            proof {
                assert(list@.take(i + 1).drop_last() =~= list@.take(i as int));
                assert(list@.take(i + 1).last() == event);
            }
            cal.add_event(event);
            i = i + 1;
        }
        assert(list@.take(i as int) =~= list@);
        cal
    }

    /// The stored events, earliest first.
    pub fn events(&self) -> (r: &Vec<Event>)
        ensures
            r@ == self@,
    {
        &self.events
    }

    /// How many events are stored.
    pub fn len(&self) -> (r: usize)
        ensures
            r == self@.len(),
    {
        self.events.len()
    }

    /// The number of stored events that sort before `[start, end)`, found by
    /// halving. `end` may lie at or before `start`: the pair is only a probe.
    fn place(&self, start: i64, end: i64) -> (r: usize)
        requires
            self.wf(),
        ensures
            r <= self@.len(),
            forall|i: int| 0 <= i < r ==> sorts_before(self@[i].interval, Interval { start, end }),
            forall|i: int|
                r <= i < self@.len() ==> !sorts_before(self@[i].interval, Interval { start, end }),
    {
        let ghost probe = Interval { start, end };
        let mut lo: usize = 0;
        let mut hi: usize = self.events.len();
        while lo < hi
            invariant
                self.wf(),
                probe == (Interval { start, end }),
                lo <= hi <= self@.len(),
                forall|i: int| 0 <= i < lo ==> sorts_before(self@[i].interval, probe),
                forall|i: int| hi <= i < self@.len() ==> !sorts_before(self@[i].interval, probe),
            decreases hi - lo,
        {
            let mid: usize = lo + (hi - lo) / 2;
            let at = &self.events[mid].interval;
            if at.start < start || (at.start == start && at.end < end) {
                assert forall|i: int| 0 <= i < mid + 1 implies sorts_before(
                    self@[i].interval,
                    probe,
                ) by {
                    if i < mid {
                        assert(sorts_before(self@[i].interval, self@[mid as int].interval));
                    }
                }
                lo = mid + 1;
            } else {
                assert forall|i: int| mid <= i < self@.len() implies !sorts_before(
                    self@[i].interval,
                    probe,
                ) by {
                    if mid < i {
                        assert(sorts_before(self@[mid as int].interval, self@[i].interval));
                    }
                }
                hi = mid;
            }
        }
        lo
    }

    /// Files `event` under its interval. Answers whether it went in: an event
    /// whose interval is already held stays out and leaves the calendar as it
    /// was. Events that overlap are kept side by side.
    pub fn add_event(&mut self, event: Event) -> (r: bool)
        requires
            old(self).wf(),
            event.interval.wf(),
        ensures
            final(self).wf(),
            r == accepts(old(self)@, event),
            final(self)@ == with_event(old(self)@, event),
            final(self)@.len() == old(self)@.len() + if r {
                1int
            } else {
                0int
            },
            forall|other: Interval<i64>|
                holds(final(self)@, other) <==> other == event.interval || holds(old(self)@, other),
    {
        let at = self.place(event.interval.start, event.interval.end);
        proof {
            let s = self@;
            lemma_rank_splits(s, event.interval);
            lemma_with_event_ascending(s, event);
            if at < rank(s, event.interval) {
                assert(sorts_before(s[at as int].interval, event.interval));
            }
            if rank(s, event.interval) < at {
                assert(!sorts_before(s[rank(s, event.interval)].interval, event.interval));
            }
            if holds(s, event.interval) {
                let i = choose|i: int| 0 <= i < s.len() && (#[trigger] s[i]).interval == event.interval;
                if at < i {
                    assert(sorts_before(s[at as int].interval, s[i].interval));
                }
                assert(i == at);
            }
        }
        if at < self.events.len() && self.events[at].interval.start == event.interval.start
            && self.events[at].interval.end == event.interval.end {
            false
        } else {
            self.events.insert(at, event);
            true
        }
    }

    /// A walk over the stored events that start inside `range`, earliest
    /// first. The two ends of the window are found by halving, and the walk
    /// touches no event outside it.
    pub fn events_in<'a>(&'a self, range: Range<i64>) -> (r: EventsIn<'a>)
        requires
            self.wf(),
        ensures
            r.remaining() == window(self@, range),
    {
        let lo = self.place(range.start, i64::MIN);
        let mut hi = self.place(range.end, i64::MIN);
        if hi < lo {
            hi = lo;
        }
        proof {
            lemma_filter_stretch(
                self@,
                |e: Event| range.start <= e.interval.start < range.end,
                lo as int,
                hi as int,
            );
        }
        EventsIn { events: &self.events, next: lo, end: hi }
    }
}

impl Clone for Cal {
    fn clone(&self) -> (r: Cal)
        ensures
            r@ == self@,
    {
        let mut events: Vec<Event> = Vec::new();
        let mut i: usize = 0;
        while i < self.events.len()
            invariant
                i <= self.events.len(),
                events@ == self.events@.take(i as int),
            decreases self.events.len() - i,
        {
            events.push(self.events[i].clone());
            assert(events@ =~= self.events@.take(i + 1));
            i = i + 1;
        }
        assert(events@ =~= self.events@);
        Cal { events }
    }
}

/// A walk over a stretch of a calendar's events. It hands out one event per
/// call of `next` and reads none ahead.
pub struct EventsIn<'a> {
    events: &'a Vec<Event>,
    next: usize,
    end: usize,
}

impl<'a> EventsIn<'a> {
    #[verifier::type_invariant]
    spec fn in_bounds(self) -> bool {
        self.next <= self.end <= self.events@.len()
    }

    /// The events still to come, in the order in which `next` hands them out.
    pub closed spec fn remaining(self) -> Seq<Event> {
        self.events@.subrange(self.next as int, self.end as int)
    }

    /// Hands out the next event, or `None` once the stretch is used up.
    pub fn next(&mut self) -> (r: Option<&'a Event>)
        ensures
            old(self).remaining().len() > 0 ==> r == Some(&old(self).remaining()[0])
                && final(self).remaining() == old(self).remaining().drop_first(),
            old(self).remaining().len() == 0 ==> r.is_none() && final(self).remaining()
                == old(self).remaining(),
    {
        proof {
            use_type_invariant(&*self);
        }
        if self.next < self.end {
            let event = &self.events[self.next];
            self.next = self.next + 1;
            assert(self.remaining() =~= old(self).remaining().drop_first());
            Some(event)
        } else {
            None
        }
    }
}

} // verus!
