use crate::cal::interval::Interval;
use crate::cal::Event;
use crate::trusted::day_start;
use crate::trusted::is_white;
use crate::trusted::parse_date;
use crate::trusted::parse_time;
use crate::trusted::second_of_day;
use crate::trusted::white;
use crate::trusted::write_moment;
use crate::trusted::written;
use vstd::prelude::*;
use vstd::std_specs::iter::IteratorSpec;
use vstd::string::axiom_spec_iter;
use vstd::string::next_postcondition;
use vstd::string::StrSliceExecFns;
use vstd::string::StringExecFns;

verus! {

/// How a day is written in a message: month, day and year.
pub const DATE_FORMAT: &'static str = "%m/%d/%Y";

/// How a time of day is written in a message.
pub const TIME_FORMAT: &'static str = "%H:%M:%S";

/// How the start of an event is written out.
pub const STAMP_FORMAT: &'static str = "%-m/%-d/%Y at %H:%M:%S";

/// What is answered to a command that is not known.
pub const UNSUPPORTED: &'static str = "Unsupported command";

/// What is answered to an event that cannot be read.
pub const WRONG: &'static str = "wrong";

/// The name of the command that adds an event.
pub const ADD_EVENT: &'static str = "add_event";

/// The name of the command that lists the events of today.
pub const TODAY: &'static str = "today";

/// How far behind UTC the clocks of the users run, in seconds.
pub const ZONE_WEST: i64 = 25200;

/// How long an event added by message lasts, in seconds.
pub const EVENT_SECONDS: i64 = 3600;

/// The length of a day, in seconds.
pub const DAY_SECONDS: i64 = 86400;

/// A command sent by a user.
#[derive(Debug, PartialEq, Eq)]
pub enum Command {
    /// Add the event to the calendar.
    AddEvent(Event),
    /// List the events of a window of time.
    GetEvents(DateWindow),
}

/// The window of time that a query is about.
#[derive(Clone, Copy, Debug, PartialEq, Eq)]
pub enum DateWindow {
    /// The day that holds the present moment.
    Today,
}

/// Whether `c` is the mark looked for: that very character, or any white
/// space where none is named.
pub open spec fn is_mark(c: char, mark: Option<char>) -> bool {
    match mark {
        Some(m) => c == m,
        None => white(c),
    }
}

/// The place of the first mark in `s`, if there is one.
pub open spec fn first_mark(s: Seq<char>, mark: Option<char>) -> Option<int>
    decreases s.len(),
{
    if s.len() == 0 {
        None
    } else if is_mark(s[0], mark) {
        Some(0)
    } else {
        match first_mark(s.drop_first(), mark) {
            Some(i) => Some(i + 1),
            None => None,
        }
    }
}

/// The name of the command in a message and what follows it. The name runs
/// from behind the first slash up to the first blank, and stops short at an
/// `@` before that; what follows the blank is the rest. A message without
/// a slash has no name and is all rest.
pub open spec fn command_parts(text: Seq<char>) -> (Seq<char>, Seq<char>) {
    match first_mark(text, Some('/')) {
        None => (Seq::empty(), text),
        Some(slash) => {
            let after = text.skip(slash + 1);
            let (name, rest) = match first_mark(after, Some(' ')) {
                Some(blank) => (after.take(blank), after.skip(blank + 1)),
                None => (after, Seq::empty()),
            };
            match first_mark(after, Some('@')) {
                Some(at) => if at < name.len() {
                    (name.take(at), rest)
                } else {
                    (name, rest)
                },
                None => (name, rest),
            }
        },
    }
}

/// The day, the time of day and the description in the body of a message:
/// the first two are set off by one white space each, the description is
/// all that follows. Without any white space there is no time, and no
/// reading.
pub open spec fn event_words(text: Seq<char>) -> Option<(Seq<char>, Seq<char>, Seq<char>)> {
    match first_mark(text, None) {
        None => None,
        Some(a) => {
            let rest = text.skip(a + 1);
            match first_mark(rest, None) {
                Some(b) => Some((text.take(a), rest.take(b), rest.skip(b + 1))),
                None => Some((text.take(a), rest, Seq::empty())),
            }
        },
    }
}

/// The hour that starts `second` seconds into the day whose midnight, read
/// off the users' clocks, is `day`; nothing where it leaves the timeline.
pub open spec fn hour_from(day: i64, second: u32) -> Option<Interval<i64>> {
    let start = day + second + ZONE_WEST;
    let end = start + EVENT_SECONDS;
    if i64::MIN <= start && end <= i64::MAX {
        Some(Interval { start: start as i64, end: end as i64 })
    } else {
        None
    }
}

/// The description and the interval of the event that the body of a message
/// asks for, where it can be read.
pub open spec fn planned(text: Seq<char>) -> Option<(Seq<char>, Interval<i64>)> {
    match event_words(text) {
        None => None,
        Some((date, time, description)) => match (
            day_start(date, DATE_FORMAT@),
            second_of_day(time, TIME_FORMAT@),
        ) {
            (Some(day), Some(second)) => match hour_from(day, second) {
                Some(interval) => Some((description, interval)),
                None => None,
            },
            _ => None,
        },
    }
}

/// The line that tells of an event, from the written form of its start.
pub open spec fn event_line(stamp: Seq<char>, description: Seq<char>) -> Seq<char> {
    "On "@ + stamp + ":\n"@ + description
}

/// The line that tells of an event that starts at `start`, where its start
/// can be written out on the users' clocks.
pub open spec fn shown(start: i64, description: Seq<char>) -> Option<Seq<char>> {
    if start - ZONE_WEST < i64::MIN {
        None
    } else {
        match written((start - ZONE_WEST) as i64, STAMP_FORMAT@) {
            Some(stamp) => Some(event_line(stamp, description)),
            None => None,
        }
    }
}

/// The day that holds `now` on the users' clocks, from its midnight to the
/// next; nothing where it leaves the timeline.
pub open spec fn day_around(now: i64) -> Option<Interval<i64>> {
    let start = now - (now - ZONE_WEST) % (DAY_SECONDS as int);
    let end = start + DAY_SECONDS;
    if i64::MIN <= now - ZONE_WEST && i64::MIN <= start && end <= i64::MAX {
        Some(Interval { start: start as i64, end: end as i64 })
    } else {
        None
    }
}

/// Where the first mark stands: it is a mark, and nothing before it is.
pub proof fn lemma_first_mark(s: Seq<char>, mark: Option<char>)
    ensures
        match first_mark(s, mark) {
            Some(i) => 0 <= i < s.len() && is_mark(s[i], mark) && forall|j: int|
                0 <= j < i ==> !is_mark(#[trigger] s[j], mark),
            None => forall|j: int| 0 <= j < s.len() ==> !is_mark(#[trigger] s[j], mark),
        },
    decreases s.len(),
{
    if s.len() > 0 && !is_mark(s[0], mark) {
        let tail = s.drop_first();
        lemma_first_mark(tail, mark);
        assert forall|j: int| 0 <= j < tail.len() implies tail[j] == s[j + 1] by {}
        match first_mark(tail, mark) {
            Some(i) => {
                assert forall|j: int| 0 <= j < i + 1 implies !is_mark(#[trigger] s[j], mark) by {
                    if j > 0 {
                        assert(!is_mark(tail[j - 1], mark));
                    }
                }
            },
            None => {
                assert forall|j: int| 0 <= j < s.len() implies !is_mark(#[trigger] s[j], mark) by {
                    if j > 0 {
                        assert(!is_mark(tail[j - 1], mark));
                    }
                }
            },
        }
    }
}

/// Whether `c` is the mark looked for.
fn hits(c: char, mark: Option<char>) -> (r: bool)
    ensures
        r == is_mark(c, mark),
{
    match mark {
        Some(m) => c == m,
        None => is_white(c),
    }
}

/// The place of the first mark at or behind `from`, in one pass over the
/// text.
fn find_mark(text: &str, from: usize, mark: Option<char>) -> (r: Option<usize>)
    requires
        from <= text@.len(),
    ensures
        r matches Some(at) ==> from <= at < text@.len() && first_mark(
            text@.skip(from as int),
            mark,
        ) == Some(at - from),
        r.is_none() ==> first_mark(text@.skip(from as int), mark).is_none(),
{
    broadcast use next_postcondition;
    broadcast use axiom_spec_iter;

    let length = text.unicode_len();
    let mut rest = text.chars();
    let mut at: usize = 0;
    let ghost sought = text@.skip(from as int);
    assert(text@.skip(0) =~= text@);
    loop
        invariant
            length == text@.len(),
            from <= length,
            at <= length,
            sought == text@.skip(from as int),
            rest.obeys_prophetic_iter_laws(),
            rest.decrease() is Some,
            rest.remaining() == text@.skip(at as int),
            forall|j: int| from <= j < at ==> !is_mark(#[trigger] text@[j], mark),
        decreases rest.decrease()->0,
    {
        match rest.next() {
            None => {
                proof {
                    lemma_first_mark(sought, mark);
                    if let Some(i) = first_mark(sought, mark) {
                        assert(sought[i] == text@[from + i]);
                    }
                }
                return None;
            },
            Some(c) => {
                assert(c == text@[at as int]);
                assert(rest.remaining() =~= text@.skip(at + 1));
                if at >= from && hits(c, mark) {
                    proof {
                        lemma_first_mark(sought, mark);
                        assert(sought[at - from] == text@[at as int]);
                        if let Some(i) = first_mark(sought, mark) {
                            assert(sought[i] == text@[from + i]);
                        }
                    }
                    return Some(at);
                }
                at = at + 1;
            },
        }
    }
}

/// Splits a message into the name of its command and the rest.
pub fn split_command(text: &str) -> (r: (&str, &str))
    ensures
        r.0@ == command_parts(text@).0,
        r.1@ == command_parts(text@).1,
{
    proof {
        reveal_strlit("");
        assert(text@.skip(0) =~= text@);
    }
    let length = text.unicode_len();
    match find_mark(text, 0, Some('/')) {
        None => ("", text),
        Some(slash) => {
            let begin = slash + 1;
            let ghost after = text@.skip(begin as int);
            let blank = find_mark(text, begin, Some(' '));
            let at = find_mark(text, begin, Some('@'));
            let (mut stop, rest) = match blank {
                Some(blank) => (blank, text.substring_char(blank + 1, length)),
                None => (length, ""),
            };
            proof {
                match first_mark(after, Some(' ')) {
                    Some(b) => {
                        assert(after.take(b) =~= text@.subrange(begin as int, stop as int));
                        assert(after.skip(b + 1) =~= text@.subrange(stop + 1, length as int));
                    },
                    None => {
                        assert(after =~= text@.subrange(begin as int, stop as int));
                    },
                }
            }
            match at {
                Some(at) => {
                    if at < stop {
                        assert(text@.subrange(begin as int, stop as int).take(at - begin)
                            =~= text@.subrange(begin as int, at as int));
                        stop = at;
                    }
                },
                None => {},
            }
            (text.substring_char(begin, stop), rest)
        },
    }
}

/// The hour-long event that starts `second` seconds into the day whose
/// midnight, read off the users' clocks, is `day`.
pub fn hour_long_event(day: i64, second: u32, description: &str) -> (r: Option<Event>)
    ensures
        match r {
            Some(event) => hour_from(day, second) == Some(event.interval) && event.description@
                == description@ && event.organizer@ == Seq::<char>::empty(),
            None => hour_from(day, second).is_none(),
        },
{
    let local = match day.checked_add(second as i64) {
        Some(local) => local,
        None => {
            return None;
        },
    };
    let start = match local.checked_add(ZONE_WEST) {
        Some(start) => start,
        None => {
            return None;
        },
    };
    let end = match start.checked_add(EVENT_SECONDS) {
        Some(end) => end,
        None => {
            return None;
        },
    };
    Some(
        Event {
            organizer: String::new(),
            description: String::from_str(description),
            interval: Interval { start, end },
        },
    )
}

/// Reads the day, the time of day and the description of an event out of the
/// body of a message.
pub fn parse_event(text: &str) -> (r: Result<Event, &'static str>)
    ensures
        match r {
            Ok(event) => planned(text@) == Some((event.description@, event.interval))
                && event.organizer@ == Seq::<char>::empty() && event.interval.wf(),
            Err(message) => planned(text@).is_none() && message@ == WRONG@,
        },
{
    proof {
        reveal_strlit("");
        assert(text@.skip(0) =~= text@);
    }
    let length = text.unicode_len();
    let a = match find_mark(text, 0, None) {
        Some(a) => a,
        None => {
            return Err(WRONG);
        },
    };
    let ghost rest = text@.skip(a + 1);
    let b = find_mark(text, a + 1, None);
    let date_text = text.substring_char(0, a);
    let (time_text, description) = match b {
        Some(b) => (text.substring_char(a + 1, b), text.substring_char(b + 1, length)),
        None => (text.substring_char(a + 1, length), ""),
    };
    proof {
        assert(text@.take(a as int) =~= date_text@);
        match first_mark(rest, None) {
            Some(i) => {
                assert(rest.take(i) =~= time_text@);
                assert(rest.skip(i + 1) =~= description@);
            },
            None => {
                assert(rest =~= time_text@);
            },
        }
    }
    let day = match parse_date(date_text, DATE_FORMAT) {
        Some(day) => day,
        None => {
            return Err(WRONG);
        },
    };
    let second = match parse_time(time_text, TIME_FORMAT) {
        Some(second) => second,
        None => {
            return Err(WRONG);
        },
    };
    match hour_long_event(day, second, description) {
        Some(event) => Ok(event),
        None => Err(WRONG),
    }
}

/// Whether two texts are the same.
fn same_text(a: &str, b: &str) -> (r: bool)
    ensures
        r == (a@ == b@),
{
    String::from_str(a) == String::from_str(b)
}

/// Reads a command out of a message.
pub fn parse_command(text: &str) -> (r: Result<Command, &'static str>)
    ensures
        match r {
            Ok(Command::AddEvent(event)) => command_parts(text@).0 == ADD_EVENT@ && planned(
                command_parts(text@).1,
            ) == Some((event.description@, event.interval)) && event.organizer@ == Seq::<
                char,
            >::empty() && event.interval.wf(),
            Ok(Command::GetEvents(window)) => command_parts(text@).0 != ADD_EVENT@
                && command_parts(text@).0 == TODAY@ && window == DateWindow::Today,
            Err(message) => if command_parts(text@).0 == ADD_EVENT@ {
                planned(command_parts(text@).1).is_none() && message@ == WRONG@
            } else {
                command_parts(text@).0 != TODAY@ && message@ == UNSUPPORTED@
            },
        },
{
    let (name, body) = split_command(text);
    if same_text(name, ADD_EVENT) {
        match parse_event(body) {
            Ok(event) => Ok(Command::AddEvent(event)),
            Err(message) => Err(message),
        }
    } else if same_text(name, TODAY) {
        Ok(Command::GetEvents(DateWindow::Today))
    } else {
        Err(UNSUPPORTED)
    }
}

/// Puts the line together that tells of an event.
pub fn compose_event_line(stamp: &str, description: &str) -> (r: String)
    ensures
        r@ == event_line(stamp@, description@),
{
    let mut line = String::from_str("On ");
    line.append(stamp);
    line.append(":\n");
    line.append(description);
    line
}

/// The line that tells of an event, with its start as the users' clocks
/// show it; nothing where that start cannot be written out.
pub fn pretty_print_event(event: &Event) -> (r: Option<String>)
    ensures
        r.is_some() == shown(event.interval.start, event.description@).is_some(),
        r matches Some(line) ==> Some(line@) == shown(event.interval.start, event.description@),
{
    let local = match event.interval.start.checked_sub(ZONE_WEST) {
        Some(local) => local,
        None => {
            return None;
        },
    };
    match write_moment(local, STAMP_FORMAT) {
        Some(stamp) => Some(compose_event_line(stamp.as_str(), event.description.as_str())),
        None => None,
    }
}

impl DateWindow {
    /// The stretch of the timeline that the window stands for at the moment
    /// `now`.
    pub fn resolve(&self, now: i64) -> (r: Option<Interval<i64>>)
        ensures
            r == day_around(now),
            r matches Some(day) ==> day.wf() && day.contains(now),
    {
        match self {
            DateWindow::Today => {
                let local = match now.checked_sub(ZONE_WEST) {
                    Some(local) => local,
                    None => {
                        return None;
                    },
                };
                let into = match local.checked_rem_euclid(DAY_SECONDS) {
                    Some(into) => into,
                    None => {
                        return None;
                    },
                };
                let start = match now.checked_sub(into) {
                    Some(start) => start,
                    None => {
                        return None;
                    },
                };
                match start.checked_add(DAY_SECONDS) {
                    Some(end) => Some(Interval { start, end }),
                    None => None,
                }
            },
        }
    }
}

} // verus!
