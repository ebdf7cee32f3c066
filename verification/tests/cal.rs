use calbot::cal::find_time::runs_for;
use calbot::cal::free_time::FreeTime;
use calbot::cal::interval::Interval;
use calbot::cal::Cal;
use calbot::cal::Event;
use chrono::DateTime;
use chrono::Duration;
use chrono::TimeZone;
use chrono::Utc;
use std::cmp::Ordering;

const HOUR: i64 = 3600;

fn stamp(moment: DateTime<Utc>) -> i64 {
    moment.timestamp()
}

fn event_at(date: DateTime<Utc>, duration: Duration) -> Event {
    Event {
        organizer: "".to_string(),
        description: "".to_string(),
        interval: Interval {
            start: stamp(date),
            end: stamp(date + duration),
        },
    }
}

fn busy(start: i64, end: i64) -> Event {
    Event::new(String::new(), String::new(), Interval::new(start, end))
}

fn named(name: &str, start: i64, end: i64) -> Event {
    Event::new(name.to_string(), name.to_string(), Interval::new(start, end))
}

fn gap(start: i64, end: i64) -> Interval<i64> {
    Interval::new(start, end)
}

fn calendar(events: &[(i64, i64)]) -> Cal {
    let mut cal = Cal::new();
    for (start, end) in events.iter() {
        cal.add_event(busy(*start, *end));
    }
    cal
}

fn starts(cal: &Cal, from: i64, to: i64) -> Vec<(i64, i64)> {
    let mut walk = cal.events_in(from..to);
    let mut seen = Vec::new();
    while let Some(event) = walk.next() {
        seen.push((event.interval.start, event.interval.end));
    }
    assert!(walk.next().is_none());
    seen
}

fn free(mut walk: FreeTime) -> Vec<Interval<i64>> {
    let mut gaps = Vec::new();
    while let Some(gap) = walk.next() {
        gaps.push(gap);
    }
    assert!(walk.next().is_none());
    gaps
}

#[allow(deprecated)]
fn january(day: u32, hour: u32) -> i64 {
    stamp(Utc.ymd(2019, 1, day).and_hms(hour, 0, 0))
}

#[allow(deprecated)]
fn two_event_calendar() -> Cal {
    let mut cal = Cal::new();
    assert!(cal.add_event(event_at(
        Utc.ymd(2019, 1, 1).and_hms(12, 0, 0),
        Duration::hours(1)
    )));
    assert!(cal.add_event(event_at(
        Utc.ymd(2019, 2, 1).and_hms(12, 0, 0),
        Duration::hours(1)
    )));
    cal
}

#[test]
#[allow(deprecated)]
fn event_ordering() {
    let event_a = Event {
        organizer: "zzzz".to_string(),
        description: "zzzz".to_string(),
        interval: Interval {
            start: stamp(Utc.ymd(2019, 01, 01).and_hms(0, 0, 0)),
            end: stamp(Utc.ymd(2019, 01, 01).and_hms(0, 0, 0) + Duration::hours(1)),
        },
    };
    let event_b = Event {
        organizer: "aaaa".to_string(),
        description: "aaaa".to_string(),
        interval: Interval {
            start: stamp(Utc.ymd(2020, 12, 31).and_hms(0, 0, 0)),
            end: stamp(Utc.ymd(2020, 12, 31).and_hms(0, 0, 0) + Duration::zero()),
        },
    };

    assert_eq!(event_a.partial_cmp(&event_b), Some(Ordering::Less))
}

#[test]
#[allow(deprecated)]
fn test_overlap() {
    let event_a = event_at(Utc.ymd(2019, 1, 1).and_hms(0, 0, 0), Duration::hours(2));
    let event_b = event_at(Utc.ymd(2019, 1, 1).and_hms(1, 0, 0), Duration::hours(1));
    let event_c = event_at(Utc.ymd(2020, 12, 31).and_hms(0, 0, 0), Duration::hours(1));
    let event_d = event_at(Utc.ymd(2019, 1, 1).and_hms(0, 30, 0), Duration::hours(1));
    let event_e = event_at(Utc.ymd(2019, 1, 1).and_hms(0, 0, 0), Duration::hours(2));
    assert!(event_a.overlap(&event_b));
    assert!(!event_a.overlap(&event_c));
    assert!(event_a.overlap(&event_d));
    assert!(event_a.overlap(&event_e));
}

#[test]
#[allow(deprecated)]
fn test_event_in() {
    let date = Utc.ymd(2019, 1, 1).and_hms(12, 0, 0);
    let event = event_at(date, Duration::hours(1));

    let mut cal = Cal::new();
    cal.add_event(event.clone());
    let mut walk = cal.events_in(stamp(date - Duration::days(1))..stamp(date + Duration::days(1)));
    let e = walk.next().unwrap();

    assert_eq!(*e, event);
    assert_eq!(e.interval, event.interval);
    assert!(walk.next().is_none());
}

#[test]
fn overlap_needs_a_shared_point() {
    assert!(!busy(0, 10).overlap(&busy(10, 20)));
    assert!(!busy(10, 20).overlap(&busy(0, 10)));
    assert!(busy(0, 10).overlap(&busy(9, 20)));
    assert!(busy(0, 10).overlap(&busy(0, 1)));
    assert!(busy(0, 10).overlap(&busy(-5, 1)));
}

#[test]
fn events_compare_by_interval_alone() {
    assert_eq!(named("a", 0, 10), named("b", 0, 10));
    assert_ne!(named("a", 0, 10), named("a", 0, 11));
    assert!(named("z", 0, 10) < named("a", 1, 2));
    assert!(named("z", 0, 10) < named("a", 0, 11));
    assert_eq!(named("z", 0, 10).partial_cmp(&named("a", 0, 10)), Some(Ordering::Equal));
    assert_eq!(named("a", 5, 6).partial_cmp(&named("a", 0, 10)), Some(Ordering::Greater));
    let copy = named("a", 0, 10).clone();
    assert_eq!(copy.organizer, "a");
    assert_eq!(copy.description, "a");
    assert_eq!(copy.interval, gap(0, 10));
}

#[test]
fn new_calendar_is_empty() {
    let cal = Cal::new();
    assert_eq!(cal.len(), 0);
    assert!(cal.events().is_empty());
    assert_eq!(starts(&cal, i64::MIN, i64::MAX), vec![]);
}

#[test]
fn same_interval_goes_in_once() {
    let mut cal = Cal::new();
    assert!(cal.add_event(named("first", 10, 20)));
    assert!(!cal.add_event(named("second", 10, 20)));
    assert_eq!(cal.len(), 1);
    assert_eq!(cal.events()[0].organizer, "first");
    assert_eq!(starts(&cal, 0, 100), vec![(10, 20)]);
    assert!(cal.add_event(named("third", 10, 21)));
    assert!(!cal.add_event(named("fourth", 10, 21)));
    assert!(!cal.add_event(named("fifth", 10, 20)));
    assert_eq!(cal.len(), 2);
}

#[test]
fn events_are_kept_in_order() {
    let cal = calendar(&[(50, 60), (10, 20), (30, 40), (10, 15), (0, 100), (30, 35), (70, 71)]);
    let listed: Vec<(i64, i64)> = cal
        .events()
        .iter()
        .map(|e| (e.interval.start, e.interval.end))
        .collect();
    assert_eq!(
        listed,
        vec![(0, 100), (10, 15), (10, 20), (30, 35), (30, 40), (50, 60), (70, 71)]
    );
    assert_eq!(cal.len(), 7);
}

#[test]
fn overlapping_events_are_kept_side_by_side() {
    let mut cal = Cal::new();
    assert!(cal.add_event(busy(0, 10)));
    assert!(cal.add_event(busy(5, 15)));
    assert!(cal.add_event(busy(0, 5)));
    assert_eq!(starts(&cal, 0, 100), vec![(0, 5), (0, 10), (5, 15)]);
}

#[test]
fn from_events_keeps_the_first_of_each_interval() {
    let list = vec![
        named("c", 30, 40),
        named("a", 10, 20),
        named("again", 30, 40),
        named("b", 20, 30),
    ];
    let cal = Cal::from_events(&list);
    assert_eq!(cal.len(), 3);
    let names: Vec<&str> = cal.events().iter().map(|e| e.organizer.as_str()).collect();
    assert_eq!(names, vec!["a", "b", "c"]);
    let copy = cal.clone();
    assert_eq!(copy.events(), cal.events());
    assert_eq!(Cal::from_events(cal.events()).events(), cal.events());
    assert_eq!(Cal::from_events(&Vec::new()).len(), 0);
}

#[test]
fn events_in_looks_at_the_start_alone() {
    let cal = calendar(&[(0, 100), (10, 20), (20, 30), (30, 200), (40, 50)]);
    assert_eq!(starts(&cal, 10, 40), vec![(10, 20), (20, 30), (30, 200)]);
    assert_eq!(starts(&cal, 1, 10), vec![]);
    assert_eq!(starts(&cal, 0, 1), vec![(0, 100)]);
    assert_eq!(starts(&cal, 40, 41), vec![(40, 50)]);
    assert_eq!(starts(&cal, 41, 1000), vec![]);
    assert_eq!(starts(&cal, 20, 20), vec![]);
    assert_eq!(starts(&cal, 30, 10), vec![]);
    assert_eq!(
        starts(&cal, i64::MIN, i64::MAX),
        vec![(0, 100), (10, 20), (20, 30), (30, 200), (40, 50)]
    );
}

#[test]
fn events_in_takes_every_event_of_one_start() {
    let cal = calendar(&[(10, 30), (10, 20), (10, 11), (9, 50), (11, 12)]);
    assert_eq!(starts(&cal, 10, 11), vec![(10, 11), (10, 20), (10, 30)]);
    assert_eq!(starts(&cal, i64::MIN, 10), vec![(9, 50)]);
}

#[test]
fn free_time_of_an_empty_calendar_is_the_range() {
    let cal = Cal::new();
    assert_eq!(free(cal.free_time_in(10..50)), vec![gap(10, 50)]);
    assert_eq!(free(cal.free_time_in(-7..-6)), vec![gap(-7, -6)]);
    assert_eq!(
        free(cal.free_time_in(i64::MIN..i64::MAX)),
        vec![gap(i64::MIN, i64::MAX)]
    );
    assert_eq!(free(cal.free_time_in(10..10)), vec![]);
    assert_eq!(free(cal.free_time_in(10..5)), vec![]);
}

#[test]
fn free_time_under_an_event_that_fills_the_range_is_nothing() {
    let cal = calendar(&[(10, 50)]);
    assert_eq!(free(cal.free_time_in(10..50)), vec![]);
    let mut walk = cal.free_time_in(10..50);
    assert_eq!(walk.next(), None);
    assert_eq!(walk.next(), None);
}

#[test]
fn free_time_between_two_events() {
    let cal = two_event_calendar();
    let gaps = free(cal.free_time_in(january(1, 0)..january(2, 15)));
    assert_eq!(
        gaps,
        vec![
            gap(january(1, 0), january(1, 12)),
            gap(january(1, 13), january(2, 15)),
        ]
    );
}

#[test]
fn free_time_is_what_the_events_leave_open() {
    let cal = calendar(&[(10, 20), (30, 40), (40, 45), (60, 70)]);
    assert_eq!(
        free(cal.free_time_in(0..100)),
        vec![gap(0, 10), gap(20, 30), gap(45, 60), gap(70, 100)]
    );
    assert_eq!(free(cal.free_time_in(10..60)), vec![gap(20, 30), gap(45, 60)]);
    assert_eq!(free(cal.free_time_in(30..45)), vec![]);
    assert_eq!(free(cal.free_time_in(65..100)), vec![gap(65, 100)]);
    assert_eq!(free(cal.free_time_in(60..65)), vec![]);
    assert_eq!(free(cal.free_time_in(0..10)), vec![gap(0, 10)]);
    assert_eq!(free(cal.free_time_in(5..35)), vec![gap(5, 10), gap(20, 30)]);
}

#[test]
fn free_time_passes_over_empty_gaps_of_overlapping_events() {
    let cal = calendar(&[(0, 50), (10, 20), (30, 60), (60, 70), (65, 66)]);
    assert_eq!(free(cal.free_time_in(0..100)), vec![gap(70, 100)]);
    assert_eq!(free(cal.free_time_in(-10..65)), vec![gap(-10, 0)]);
    let mut walk = cal.free_time_in(5..25);
    assert_eq!(walk.next(), Some(gap(5, 10)));
    assert_eq!(walk.next(), Some(gap(20, 25)));
    assert_eq!(walk.next(), None);
}

#[test]
fn free_time_is_every_unbooked_point_of_the_range() {
    let cal = calendar(&[(3, 9), (5, 7), (12, 13), (13, 20), (22, 40), (25, 26)]);
    for from in 0..30i64 {
        for to in from..32i64 {
            let gaps = free(cal.free_time_in(from..to));
            for pair in gaps.windows(2) {
                assert!(pair[0].end < pair[1].start);
            }
            for gap in gaps.iter() {
                assert!(from <= gap.start && gap.start < gap.end && gap.end <= to);
            }
            for t in -2..45i64 {
                let in_gap = gaps.iter().any(|g| g.start <= t && t < g.end);
                let booked = cal.events().iter().any(|e| {
                    from <= e.interval.start
                        && e.interval.start < to
                        && e.interval.start <= t
                        && t < e.interval.end
                });
                assert_eq!(in_gap, from <= t && t < to && !booked);
            }
        }
    }
}

#[test]
fn find_time_takes_the_free_candidate() {
    let cal = two_event_calendar();
    let candidates = vec![
        gap(january(1, 12), january(1, 13)),
        gap(january(1, 13), january(1, 14)),
    ];
    let slot = cal.find_time(candidates.into_iter(), january(1, 0)..january(2, 15), HOUR);
    assert_eq!(slot, Some(gap(january(1, 13), january(1, 14))));
}

#[test]
fn find_time_returns_the_overlap_of_candidate_and_free_time() {
    let cal = calendar(&[(10, 20)]);
    assert_eq!(
        cal.find_time(vec![gap(0, 100)].into_iter(), 0..50, 10),
        Some(gap(0, 10))
    );
    assert_eq!(
        cal.find_time(vec![gap(5, 100)].into_iter(), 0..50, 5),
        Some(gap(5, 10))
    );
    assert_eq!(
        cal.find_time(vec![gap(5, 100)].into_iter(), 0..50, 6),
        Some(gap(20, 50))
    );
    assert_eq!(
        cal.find_time(vec![gap(5, 30)].into_iter(), 0..50, 10),
        Some(gap(20, 30))
    );
    assert_eq!(cal.find_time(vec![gap(5, 30)].into_iter(), 0..50, 11), None);
    assert_eq!(
        cal.find_time(vec![gap(0, 10)].into_iter(), 0..50, 0),
        Some(gap(0, 10))
    );
    assert_eq!(
        cal.find_time(vec![gap(0, 10)].into_iter(), 0..50, -5),
        Some(gap(0, 10))
    );
}

#[test]
fn find_time_without_a_slot() {
    let cal = calendar(&[(10, 20)]);
    assert_eq!(cal.find_time(Vec::new().into_iter(), 0..50, 1), None);
    assert_eq!(cal.find_time(vec![gap(0, 100)].into_iter(), 10..20, 1), None);
    assert_eq!(cal.find_time(vec![gap(0, 100)].into_iter(), 30..30, 1), None);
    assert_eq!(cal.find_time(vec![gap(12, 18)].into_iter(), 0..50, 1), None);
    assert_eq!(
        cal.find_time(vec![gap(8, 10), gap(20, 22)].into_iter(), 0..50, 3),
        None
    );
}

#[test]
fn find_time_drops_the_interval_that_sorts_first() {
    let cal = calendar(&[(10, 20), (30, 40)]);
    let candidates = vec![gap(5, 25), gap(25, 45), gap(45, 70)];
    assert_eq!(
        cal.find_time(candidates.clone().into_iter(), 0..60, 5),
        Some(gap(5, 10))
    );
    assert_eq!(
        cal.find_time(candidates.clone().into_iter(), 0..60, 6),
        Some(gap(45, 60))
    );
    assert_eq!(
        cal.find_time(candidates.clone().into_iter(), 0..60, 15),
        Some(gap(45, 60))
    );
    assert_eq!(cal.find_time(candidates.into_iter(), 0..60, 16), None);
}

#[test]
fn find_time_drops_both_where_they_sort_alike() {
    let cal = Cal::new();
    let candidates = vec![gap(0, 10), gap(10, 30)];
    assert_eq!(cal.find_time(candidates.clone().into_iter(), 0..10, 11), None);
    assert_eq!(
        cal.find_time(candidates.into_iter(), 0..10, 10),
        Some(gap(0, 10))
    );
}

#[test]
fn find_time_drops_both_where_they_do_not_overlap() {
    let cal = calendar(&[(0, 5)]);
    let candidates = vec![gap(0, 1), gap(5, 10)];
    assert_eq!(cal.find_time(candidates.into_iter(), 0..10, 1), None);
    let cal = Cal::new();
    let candidates = vec![gap(0, 10), gap(10, 30)];
    assert_eq!(cal.find_time(candidates.clone().into_iter(), 10..30, 5), None);
    assert_eq!(
        cal.find_time(candidates.into_iter(), 5..30, 5),
        Some(gap(5, 10))
    );
}

#[test]
fn find_time_reads_no_further_than_it_needs() {
    let cal = calendar(&[(10, 20)]);
    let mut pulled = 0;
    let candidates = (0..1000i64).map(|k| {
        pulled += 1;
        gap(100 * k, 100 * k + 50)
    });
    assert_eq!(cal.find_time(candidates, 0..i64::MAX, 40), Some(gap(100, 150)));
    assert_eq!(pulled, 2);
}

#[test]
fn runs_for_measures_without_overflow() {
    assert!(runs_for(&gap(0, 10), 10));
    assert!(!runs_for(&gap(0, 10), 11));
    assert!(runs_for(&gap(i64::MIN, i64::MAX), i64::MAX));
    assert!(runs_for(&gap(-1, i64::MAX), i64::MAX));
    assert!(!runs_for(&gap(1, i64::MAX), i64::MAX));
    assert!(runs_for(&gap(5, 6), i64::MIN));
}
