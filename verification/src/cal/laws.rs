use crate::cal::accepts;
use crate::cal::all_spans;
use crate::cal::ascending;
use crate::cal::filed;
use crate::cal::holds;
use crate::cal::interval::Interval;
use crate::cal::rank;
use crate::cal::sorts_before;
use crate::cal::window;
use crate::cal::with_event;
use crate::cal::Event;
use core::cmp::Ordering;
use std::ops::Range;
use vstd::prelude::*;

verus! {

/// In a sequence whose members meet `pred` exactly from `lo` up to `hi`,
/// filtering by `pred` cuts out that stretch.
pub proof fn lemma_filter_stretch<A>(s: Seq<A>, pred: spec_fn(A) -> bool, lo: int, hi: int)
    requires
        0 <= lo <= hi <= s.len(),
        forall|i: int| lo <= i < hi ==> pred(#[trigger] s[i]),
        forall|i: int| 0 <= i < lo ==> !pred(#[trigger] s[i]),
        forall|i: int| hi <= i < s.len() ==> !pred(#[trigger] s[i]),
    ensures
        s.filter(pred) == s.subrange(lo, hi),
    decreases s.len(),
{
    reveal(Seq::filter);
    if s.len() == 0 {
        assert(s.filter(pred) =~= s.subrange(lo, hi));
    } else {
        let front = s.drop_last();
        assert forall|i: int| 0 <= i < front.len() implies front[i] == s[i] by {}
        if hi == s.len() {
            if lo == hi {
                lemma_filter_stretch(front, pred, lo - 1, lo - 1);
                assert(!pred(s.last()));
                assert(front.subrange(lo - 1, lo - 1) =~= s.subrange(lo, hi));
            } else {
                lemma_filter_stretch(front, pred, lo, hi - 1);
                assert(pred(s.last()));
                assert(front.subrange(lo, hi - 1).push(s.last()) =~= s.subrange(lo, hi));
            }
        } else {
            lemma_filter_stretch(front, pred, lo, hi);
            assert(!pred(s.last()));
            assert(front.subrange(lo, hi) =~= s.subrange(lo, hi));
        }
    }
}

/// The order of the store is the order of the intervals themselves, and two
/// intervals that neither sorts before the other are one and the same.
pub proof fn lemma_store_order_is_interval_order(a: Interval<i64>, b: Interval<i64>)
    ensures
        sorts_before(a, b) <==> a.standing(b) == Ordering::Less,
        sorts_before(b, a) <==> a.standing(b) == Ordering::Greater,
        a == b <==> a.standing(b) == Ordering::Equal,
{
}

/// In an ascending sequence the events that sort before `interval` are the
/// leading ones, as many as `rank` counts.
pub proof fn lemma_rank_splits(s: Seq<Event>, interval: Interval<i64>)
    requires
        ascending(s),
    ensures
        0 <= rank(s, interval) <= s.len(),
        forall|i: int| 0 <= i < rank(s, interval) ==> sorts_before((#[trigger] s[i]).interval, interval),
        forall|i: int|
            rank(s, interval) <= i < s.len() ==> !sorts_before((#[trigger] s[i]).interval, interval),
    decreases s.len(),
{
    reveal(Seq::filter);
    let pred = |e: Event| sorts_before(e.interval, interval);
    if s.len() > 0 {
        let front = s.drop_last();
        assert forall|i: int| 0 <= i < front.len() implies front[i] == s[i] by {}
        assert(ascending(front)) by {
            assert forall|i: int, j: int| 0 <= i < j < front.len() implies sorts_before(
                front[i].interval,
                front[j].interval,
            ) by {
                assert(sorts_before(s[i].interval, s[j].interval));
            }
        }
        lemma_rank_splits(front, interval);
        if pred(s.last()) {
            assert forall|i: int| 0 <= i < front.len() implies pred(#[trigger] front[i]) by {
                assert(sorts_before(s[i].interval, s[s.len() - 1].interval));
            }
            lemma_filter_stretch(front, pred, 0, front.len() as int);
            assert(front.subrange(0, front.len() as int) =~= front);
        }
    }
}

/// Offering an event keeps the store in order: the sequence stays ascending,
/// every event in it spans a point if the new one does, and the event's
/// interval is held afterwards.
pub proof fn lemma_with_event_ascending(s: Seq<Event>, event: Event)
    requires
        ascending(s),
    ensures
        ascending(with_event(s, event)),
        holds(with_event(s, event), event.interval),
        all_spans(s) && event.interval.start < event.interval.end ==> all_spans(
            with_event(s, event),
        ),
        forall|other: Interval<i64>|
            holds(with_event(s, event), other) <==> other == event.interval || holds(s, other),
{
    lemma_rank_splits(s, event.interval);
    let at = rank(s, event.interval);
    let t = with_event(s, event);
    if !holds(s, event.interval) {
        assert(t[at] == event);
        assert forall|i: int, j: int| 0 <= i < j < t.len() implies sorts_before(
            t[i].interval,
            t[j].interval,
        ) by {
            let oi = if i < at { i } else { i - 1 };
            let oj = if j < at { j } else { j - 1 };
            if i != at && j != at {
                assert(sorts_before(s[oi].interval, s[oj].interval));
            } else if i == at {
                assert(!sorts_before(s[oj].interval, event.interval));
                assert(s[oj].interval != event.interval);
            }
        }
        assert forall|other: Interval<i64>| holds(t, other) <==> other == event.interval || holds(
            s,
            other,
        ) by {
            if holds(t, other) {
                let i = choose|i: int| 0 <= i < t.len() && (#[trigger] t[i]).interval == other;
                if i != at {
                    let oi = if i < at { i } else { i - 1 };
                    assert(s[oi].interval == other);
                }
            }
            if holds(s, other) {
                let i = choose|i: int| 0 <= i < s.len() && (#[trigger] s[i]).interval == other;
                let ni = if i < at { i } else { i + 1 };
                assert(t[ni].interval == other);
            }
        }
        if all_spans(s) && event.interval.start < event.interval.end {
            assert forall|i: int| 0 <= i < t.len() implies (#[trigger] t[i]).interval.start
                < t[i].interval.end by {
                if i != at {
                    let oi = if i < at { i } else { i - 1 };
                    assert(s[oi].interval.start < s[oi].interval.end);
                }
            }
        }
    }
}

/// Of two events with one interval offered in turn, the first is taken in
/// where the interval is new, the second never is, and the store then holds
/// that interval exactly once.
pub proof fn lemma_second_offer_stays_out(s: Seq<Event>, first: Event, second: Event)
    requires
        ascending(s),
        first.interval == second.interval,
    ensures
        !holds(s, first.interval) ==> accepts(s, first),
        !accepts(with_event(s, first), second),
        with_event(with_event(s, first), second) == with_event(s, first),
        forall|i: int, j: int|
            #![trigger with_event(s, first)[i], with_event(s, first)[j]]
            0 <= i < with_event(s, first).len() && 0 <= j < with_event(s, first).len()
                && with_event(s, first)[i].interval == first.interval && with_event(
                s,
                first,
            )[j].interval == first.interval ==> i == j,
{
    lemma_with_event_ascending(s, first);
    let t = with_event(s, first);
    assert forall|i: int, j: int|
        0 <= i < t.len() && 0 <= j < t.len() && t[i].interval == first.interval && t[j].interval
            == first.interval implies i == j by {
        if i < j {
            assert(sorts_before(t[i].interval, t[j].interval));
        }
        if j < i {
            assert(sorts_before(t[j].interval, t[i].interval));
        }
    }
}

/// A list that is already in ascending order is filed as it stands: a
/// calendar written out event by event and filed again is the same calendar.
pub proof fn lemma_filed_of_ascending(s: Seq<Event>)
    requires
        ascending(s),
    ensures
        filed(s) == s,
    decreases s.len(),
{
    if s.len() == 0 {
        assert(filed(s) =~= s);
    } else {
        let front = s.drop_last();
        let last = s.last();
        assert forall|i: int| 0 <= i < front.len() implies front[i] == s[i] by {}
        assert(ascending(front)) by {
            assert forall|i: int, j: int| 0 <= i < j < front.len() implies sorts_before(
                front[i].interval,
                front[j].interval,
            ) by {
                assert(sorts_before(s[i].interval, s[j].interval));
            }
        }
        lemma_filed_of_ascending(front);
        assert forall|i: int| 0 <= i < front.len() implies sorts_before(
            (#[trigger] front[i]).interval,
            last.interval,
        ) by {
            assert(sorts_before(s[i].interval, s[s.len() - 1].interval));
        }
        if holds(front, last.interval) {
            let i = choose|i: int| 0 <= i < front.len() && (#[trigger] front[i]).interval == last.interval;
            assert(sorts_before(front[i].interval, last.interval));
        }
        lemma_filter_stretch(
            front,
            |e: Event| sorts_before(e.interval, last.interval),
            0,
            front.len() as int,
        );
        assert(front.subrange(0, front.len() as int) =~= front);
        assert(front.insert(front.len() as int, last) =~= s);
    }
}

/// Filing a list leaves an ascending store that holds exactly the intervals
/// of the list.
pub proof fn lemma_filed_holds_the_list(list: Seq<Event>)
    ensures
        ascending(filed(list)),
        all_spans(list) ==> all_spans(filed(list)),
        forall|interval: Interval<i64>| holds(filed(list), interval) <==> holds(list, interval),
    decreases list.len(),
{
    if list.len() > 0 {
        let front = list.drop_last();
        let last = list.last();
        assert forall|i: int| 0 <= i < front.len() implies front[i] == list[i] by {}
        lemma_filed_holds_the_list(front);
        lemma_with_event_ascending(filed(front), last);
        if all_spans(list) {
            assert(all_spans(front)) by {
                assert forall|i: int| 0 <= i < front.len() implies (#[trigger] front[i]).interval.start
                    < front[i].interval.end by {
                    assert(list[i].interval.start < list[i].interval.end);
                }
            }
            assert(list[list.len() - 1].interval.start < list[list.len() - 1].interval.end);
        }
        assert forall|interval: Interval<i64>| holds(filed(list), interval) <==> holds(
            list,
            interval,
        ) by {
            if holds(list, interval) {
                let i = choose|i: int| 0 <= i < list.len() && (#[trigger] list[i]).interval == interval;
                if i < front.len() {
                    assert(front[i].interval == interval);
                }
            }
            if holds(front, interval) {
                let i = choose|i: int| 0 <= i < front.len() && (#[trigger] front[i]).interval == interval;
                assert(list[i].interval == interval);
            }
            if interval == last.interval {
                assert(list[list.len() - 1].interval == interval);
            }
        }
    }
}

/// The window of a range in an ascending store is ascending, and it holds
/// exactly the events of the store that start inside the range.
pub proof fn lemma_window_is_the_stretch(events: Seq<Event>, range: Range<i64>)
    requires
        ascending(events),
    ensures
        ascending(window(events, range)),
        all_spans(events) ==> all_spans(window(events, range)),
        forall|k: int|
            0 <= k < window(events, range).len() ==> {
                let event = #[trigger] window(events, range)[k];
                events.contains(event) && range.start <= event.interval.start < range.end
            },
        forall|i: int|
            0 <= i < events.len() && range.start <= events[i].interval.start < range.end
                ==> window(events, range).contains(#[trigger] events[i]),
    decreases events.len(),
{
    reveal(Seq::filter);
    let pred = |e: Event| range.start <= e.interval.start < range.end;
    let kept = window(events, range);
    if events.len() > 0 {
        let front = events.drop_last();
        let last = events.last();
        assert forall|i: int| 0 <= i < front.len() implies front[i] == events[i] by {}
        assert(ascending(front)) by {
            assert forall|i: int, j: int| 0 <= i < j < front.len() implies sorts_before(
                front[i].interval,
                front[j].interval,
            ) by {
                assert(sorts_before(events[i].interval, events[j].interval));
            }
        }
        lemma_window_is_the_stretch(front, range);
        let kept_front = window(front, range);
        assert(kept == if pred(last) {
            kept_front.push(last)
        } else {
            kept_front
        });
        assert forall|k: int| 0 <= k < kept_front.len() implies sorts_before(
            kept_front[k].interval,
            last.interval,
        ) && events.contains(kept_front[k]) by {
            assert(front.contains(kept_front[k]));
            let i = choose|i: int| 0 <= i < front.len() && front[i] == kept_front[k];
            assert(events[i] == kept_front[k]);
            assert(sorts_before(events[i].interval, events[events.len() - 1].interval));
        }
        if pred(last) {
            assert(kept[kept.len() - 1] == last);
            assert(events[events.len() - 1] == last);
            assert forall|i: int, j: int| 0 <= i < j < kept.len() implies sorts_before(
                kept[i].interval,
                kept[j].interval,
            ) by {
                if j < kept_front.len() {
                    assert(sorts_before(kept_front[i].interval, kept_front[j].interval));
                }
            }
        }
        assert forall|i: int|
            0 <= i < events.len() && range.start <= events[i].interval.start
                < range.end implies kept.contains(#[trigger] events[i]) by {
            if i < front.len() {
                assert(kept_front.contains(front[i]));
                let k = choose|k: int| 0 <= k < kept_front.len() && kept_front[k] == front[i];
                assert(kept[k] == events[i]);
            } else {
                assert(kept[kept.len() - 1] == events[i]);
            }
        }
        if all_spans(events) {
            assert forall|k: int| 0 <= k < kept.len() implies (#[trigger] kept[k]).interval.start
                < kept[k].interval.end by {
                assert(events.contains(kept[k]));
                let i = choose|i: int| 0 <= i < events.len() && events[i] == kept[k];
                assert(events[i].interval.start < events[i].interval.end);
            }
        }
    }
}

} // verus!
