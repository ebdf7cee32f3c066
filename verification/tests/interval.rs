use calbot::cal::interval::Difference;
use calbot::cal::interval::Interval;
use chrono::DateTime;
use chrono::TimeZone;
use chrono::Utc;
use std::cmp::Ordering;

fn drain<T: Ord + Copy>(mut walk: Difference<T>) -> Vec<Interval<T>> {
    let mut parts = Vec::new();
    while let Some(part) = walk.next() {
        parts.push(part);
        assert!(parts.len() <= 2);
    }
    assert!(walk.next().is_none());
    parts
}

fn span(start: i64, end: i64) -> Interval<i64> {
    Interval::new(start, end)
}

#[allow(deprecated)]
fn hour(h: u32, m: u32) -> DateTime<Utc> {
    Utc.ymd(2019, 1, 1).and_hms(h, m, 0)
}

#[test]
#[allow(deprecated)]
fn difference_no_overlap() {
    let interval_a = Interval {
        start: Utc.ymd(2019, 1, 1).and_hms(0, 0, 0),
        end: Utc.ymd(2019, 1, 1).and_hms(2, 0, 0),
    };
    let interval_b = Interval {
        start: Utc.ymd(2019, 1, 1).and_hms(2, 0, 0),
        end: Utc.ymd(2019, 1, 1).and_hms(3, 0, 0),
    };
    assert_eq!(
        interval_a.difference(&interval_b).next().unwrap(),
        interval_a
    );
}

#[test]
#[allow(deprecated)]
fn difference_contained() {
    let interval_a = Interval {
        start: Utc.ymd(2019, 1, 1).and_hms(0, 0, 0),
        end: Utc.ymd(2019, 1, 1).and_hms(3, 0, 0),
    };
    let interval_b = Interval {
        start: Utc.ymd(2019, 1, 1).and_hms(1, 0, 0),
        end: Utc.ymd(2019, 1, 1).and_hms(2, 0, 0),
    };
    let interval_c = Interval {
        start: Utc.ymd(2019, 1, 1).and_hms(2, 0, 0),
        end: Utc.ymd(2019, 1, 1).and_hms(4, 0, 0),
    };

    let mut int_a = interval_a.difference(&interval_b);
    assert!(
        int_a.next().unwrap()
            == Interval {
                start: Utc.ymd(2019, 1, 1).and_hms(0, 0, 0),
                end: Utc.ymd(2019, 1, 1).and_hms(1, 0, 0),
            }
    );
    assert!(
        int_a.next().unwrap()
            == Interval {
                start: Utc.ymd(2019, 1, 1).and_hms(2, 0, 0),
                end: Utc.ymd(2019, 1, 1).and_hms(3, 0, 0),
            }
    );
    assert!(int_a.next().is_none());
    let mut int_a = interval_a.difference(&interval_c);
    assert!(
        int_a.next().unwrap()
            == Interval {
                start: Utc.ymd(2019, 1, 1).and_hms(0, 0, 0),
                end: Utc.ymd(2019, 1, 1).and_hms(2, 0, 0),
            }
    );
    assert!(int_a.next().is_none());
}

#[test]
#[allow(deprecated)]
fn no_intersection() {
    let interval_a = Interval {
        start: Utc.ymd(2019, 1, 1).and_hms(0, 0, 0),
        end: Utc.ymd(2019, 1, 1).and_hms(2, 0, 0),
    };
    let interval_b = Interval {
        start: Utc.ymd(2019, 1, 1).and_hms(2, 0, 0),
        end: Utc.ymd(2019, 1, 1).and_hms(3, 0, 0),
    };
    let interval_c = Interval {
        start: Utc.ymd(2019, 2, 1).and_hms(1, 0, 0),
        end: Utc.ymd(2019, 2, 1).and_hms(2, 0, 0),
    };
    assert!(interval_a.intersection(&interval_b).is_none());
    assert!(interval_a.intersection(&interval_c).is_none());
}

#[test]
#[allow(deprecated)]
fn test_intersection() {
    let interval_a = Interval {
        start: Utc.ymd(2019, 1, 1).and_hms(0, 0, 0),
        end: Utc.ymd(2019, 1, 1).and_hms(2, 0, 0),
    };
    let interval_b = Interval {
        start: Utc.ymd(2019, 1, 1).and_hms(1, 0, 0),
        end: Utc.ymd(2019, 1, 1).and_hms(3, 0, 0),
    };
    let interval_c = Interval {
        start: Utc.ymd(2019, 1, 1).and_hms(0, 30, 0),
        end: Utc.ymd(2019, 1, 1).and_hms(1, 30, 0),
    };
    let interval_d = Interval {
        start: Utc.ymd(2019, 1, 1).and_hms(0, 0, 0),
        end: Utc.ymd(2019, 1, 1).and_hms(2, 0, 0),
    };
    assert_eq!(
        interval_a.intersection(&interval_b).unwrap(),
        Interval {
            start: Utc.ymd(2019, 1, 1).and_hms(1, 0, 0),
            end: Utc.ymd(2019, 1, 1).and_hms(2, 0, 0),
        }
    );
    assert_eq!(
        interval_a.intersection(&interval_c).unwrap(),
        Interval {
            start: Utc.ymd(2019, 1, 1).and_hms(0, 30, 0),
            end: Utc.ymd(2019, 1, 1).and_hms(1, 30, 0),
        }
    );
    assert_eq!(
        interval_a.intersection(&interval_d).unwrap(),
        Interval {
            start: Utc.ymd(2019, 1, 1).and_hms(0, 0, 0),
            end: Utc.ymd(2019, 1, 1).and_hms(2, 0, 0),
        }
    );
}

#[test]
fn new_keeps_both_ends() {
    let made = Interval::new(hour(9, 0), hour(10, 30));
    assert_eq!(made.start, hour(9, 0));
    assert_eq!(made.end, hour(10, 30));
    assert_eq!(made, Interval { start: hour(9, 0), end: hour(10, 30) });
}

#[test]
fn intersection_is_later_start_to_earlier_end() {
    assert_eq!(span(0, 10).intersection(&span(4, 20)), Some(span(4, 10)));
    assert_eq!(span(4, 20).intersection(&span(0, 10)), Some(span(4, 10)));
    assert_eq!(span(-5, 5).intersection(&span(-1, 1)), Some(span(-1, 1)));
    assert_eq!(span(0, 10).intersection(&span(9, 10)), Some(span(9, 10)));
    assert_eq!(
        span(i64::MIN, i64::MAX).intersection(&span(-1, 1)),
        Some(span(-1, 1))
    );
}

#[test]
fn intersection_does_not_depend_on_order() {
    let spans = [span(0, 10), span(5, 15), span(10, 20), span(2, 3), span(-4, 30), span(0, 1)];
    for a in spans.iter() {
        for b in spans.iter() {
            assert_eq!(a.intersection(b), b.intersection(a));
        }
    }
}

#[test]
fn touching_intervals_do_not_intersect() {
    assert_eq!(span(0, 10).intersection(&span(10, 20)), None);
    assert_eq!(span(10, 20).intersection(&span(0, 10)), None);
    assert_eq!(span(0, 10).intersection(&span(11, 20)), None);
    assert_eq!(span(9, 10).intersection(&span(10, 11)), None);
}

#[test]
fn difference_yields_the_whole_once_without_overlap() {
    assert_eq!(drain(span(0, 10).difference(&span(10, 20))), vec![span(0, 10)]);
    assert_eq!(drain(span(0, 10).difference(&span(50, 60))), vec![span(0, 10)]);
    assert_eq!(drain(span(0, 10).difference(&span(-9, 0))), vec![span(0, 10)]);
}

#[test]
fn difference_cuts_out_the_overlap() {
    assert_eq!(
        drain(span(0, 10).difference(&span(3, 5))),
        vec![span(0, 3), span(5, 10)]
    );
    assert_eq!(drain(span(0, 10).difference(&span(-3, 5))), vec![span(5, 10)]);
    assert_eq!(drain(span(0, 10).difference(&span(7, 15))), vec![span(0, 7)]);
    assert_eq!(drain(span(0, 10).difference(&span(0, 4))), vec![span(4, 10)]);
    assert_eq!(drain(span(0, 10).difference(&span(6, 10))), vec![span(0, 6)]);
}

#[test]
fn difference_of_a_covered_interval_is_empty() {
    assert_eq!(drain(span(0, 10).difference(&span(0, 10))), vec![]);
    assert_eq!(drain(span(0, 10).difference(&span(-1, 11))), vec![]);
    let mut walk = span(3, 4).difference(&span(0, 10));
    assert_eq!(walk.next(), None);
    assert_eq!(walk.next(), None);
}

#[test]
fn difference_and_intersection_make_up_the_whole() {
    let spans = [span(0, 10), span(5, 15), span(10, 20), span(2, 3), span(-4, 30), span(0, 1)];
    for a in spans.iter() {
        for b in spans.iter() {
            let parts = drain(a.difference(b));
            let common = a.intersection(b);
            for t in -6..32i64 {
                let in_a = a.start <= t && t < a.end;
                let in_b = b.start <= t && t < b.end;
                let in_parts = parts.iter().filter(|p| p.start <= t && t < p.end).count();
                let in_common = common.map_or(0, |c| (c.start <= t && t < c.end) as usize);
                assert_eq!(in_parts + in_common, in_a as usize);
                assert!(!(in_parts > 0 && in_b));
            }
            for part in parts.iter() {
                assert!(part.start < part.end);
            }
            if parts.len() == 2 {
                assert!(parts[0].end < parts[1].start);
            }
        }
    }
}

#[test]
fn difference_starts_afresh_on_every_call() {
    let a = span(0, 10);
    let b = span(3, 5);
    let mut first = a.difference(&b);
    assert_eq!(first.next(), Some(span(0, 3)));
    let second = a.difference(&b);
    assert_eq!(drain(second), vec![span(0, 3), span(5, 10)]);
    assert_eq!(first.next(), Some(span(5, 10)));
    assert_eq!(first.next(), None);
    assert_eq!(drain(a.difference(&b)), drain(a.difference(&b)));
}

#[test]
fn intervals_sort_by_start_then_end() {
    assert_eq!(span(0, 10).compare(&span(1, 2)), Ordering::Less);
    assert_eq!(span(1, 2).compare(&span(0, 10)), Ordering::Greater);
    assert_eq!(span(0, 5).compare(&span(0, 10)), Ordering::Less);
    assert_eq!(span(0, 10).compare(&span(0, 5)), Ordering::Greater);
    assert_eq!(span(0, 10).compare(&span(0, 10)), Ordering::Equal);
    assert_eq!(span(0, 10).partial_cmp(&span(0, 11)), Some(Ordering::Less));
    assert_eq!(span(0, 10).cmp(&span(0, 11)), Ordering::Less);
    assert!(span(0, 10) < span(1, 2));
    assert!(span(0, 10) == span(0, 10));
    assert!(span(0, 10) != span(0, 11));
    let mut list = vec![span(5, 6), span(0, 10), span(0, 2), span(3, 4)];
    list.sort();
    assert_eq!(list, vec![span(0, 2), span(0, 10), span(3, 4), span(5, 6)]);
}
