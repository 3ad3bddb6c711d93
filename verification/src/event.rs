//! Tasks from calendar events: an event is a list of properties, and the
//! task it stands for is due at the start of the event.

use crate::clock::{clock_shows, read_clock};
use crate::db::CTask;
use crate::scheduler::Time;
use chrono::{DateTime, NaiveDateTime, TimeZone};
use chrono_tz::Tz;
use std::str::FromStr;
use vstd::prelude::*;

verus! {

/// The error of `chrono_tz` for a name that is no time zone.
#[verifier::external_type_specification]
#[verifier::external_body]
pub struct ExZoneError(chrono_tz::ParseError);

/// The error of `chrono` for a text that is no date.
#[verifier::external_type_specification]
#[verifier::external_body]
pub struct ExDateError(chrono::ParseError);

/// Whether `chrono_tz` knows a time zone of this name.
pub uninterp spec fn zone_known(name: Seq<char>) -> bool;

/// The date and time that `chrono` reads from `text` in the given format, in
/// seconds since the epoch as a clock without time zone counts them.
pub uninterp spec fn naive_seconds(text: Seq<char>, format: Seq<char>) -> Option<i64>;

/// The instant at which the clocks of the zone of this name show the given
/// date and time, counted in seconds as a clock without time zone counts
/// them; none where the zone is not known, where its clocks show that time
/// never or twice, or where an instant is out of the range of `chrono`.
pub uninterp spec fn instant_in_zone(zone: Seq<char>, naive: i64) -> Option<Time>;

/// Calls `chrono_tz::Tz::from_str`. Trusted: whether the name is that of a
/// zone depends on the name alone.
#[verifier::external_body]
fn parse_zone(name: &str) -> (r: Result<(), chrono_tz::ParseError>)
    ensures
        r is Ok <==> zone_known(name@),
{
    match Tz::from_str(name) {
        Ok(_) => Ok(()),
        Err(e) => Err(e),
    }
}

/// Calls `chrono::NaiveDateTime::parse_from_str`. Trusted: what is read
/// depends on the text and the format alone.
#[verifier::external_body]
fn parse_naive(text: &str, format: &str) -> (r: Result<i64, chrono::ParseError>)
    ensures
        match r {
            Ok(seconds) => naive_seconds(text@, format@) == Some(seconds),
            Err(_) => naive_seconds(text@, format@) is None,
        },
{
    match NaiveDateTime::parse_from_str(text, format) {
        Ok(naive) => Ok(naive.and_utc().timestamp()),
        Err(e) => Err(e),
    }
}

/// Calls `chrono::TimeZone::from_local_datetime` on the zone of `chrono_tz`
/// that has this name. Trusted: the instant depends on the name and on the
/// date and time alone.
#[verifier::external_body]
fn local_to_utc(zone: &str, naive: i64) -> (r: Option<Time>)
    ensures
        r == instant_in_zone(zone@, naive),
{
    let zone = Tz::from_str(zone).ok()?;
    let local = DateTime::from_timestamp(naive, 0)?.naive_utc();
    match zone.from_local_datetime(&local).single() {
        Some(at) => Some(at.timestamp()),
        None => None,
    }
}

/// A property of a calendar event.
#[derive(Debug)]
pub struct EventProperty {
    /// Property name.
    pub name: String,
    /// Property list of parameters: names, and the values of each.
    pub params: Option<Vec<(String, Vec<String>)>>,
    /// Property value.
    pub value: Option<String>,
}

/// Why an event gives no task.
#[derive(Debug)]
pub enum EventToTaskError {
    /// Error parsing timezone.
    TzError(chrono_tz::ParseError),
    /// Error parsing date string.
    ChronoError(chrono::ParseError),
    /// Malformed event.
    MalformedEvent,
}

/// The first of the parameters from `from` on that has the given name.
pub open spec fn first_named(
    params: Seq<(Seq<char>, Seq<Seq<char>>)>,
    name: Seq<char>,
    from: int,
) -> Option<int>
    decreases params.len() - from,
{
    if from < 0 || from >= params.len() {
        None
    } else if params[from].0 == name {
        Some(from)
    } else {
        first_named(params, name, from + 1)
    }
}

/// The last of the first `upto` properties that has the given name.
pub open spec fn last_named(props: Seq<EventProperty>, name: Seq<char>, upto: int) -> Option<int>
    decreases upto,
{
    if upto <= 0 || upto > props.len() {
        None
    } else if props[upto - 1].name@ == name {
        Some(upto - 1)
    } else {
        last_named(props, name, upto - 1)
    }
}

/// The name of the time zone of a date property: the first value of its
/// first parameter `TZID`.
pub open spec fn zone_name(params: Option<Seq<(Seq<char>, Seq<Seq<char>>)>>) -> Option<Seq<char>> {
    match params {
        None => None,
        Some(params) => match first_named(params, "TZID"@, 0) {
            None => None,
            Some(i) => if params[i].1.len() > 0 {
                Some(params[i].1[0])
            } else {
                None
            },
        },
    }
}

/// The format of the date and time of an event: year, month, day, the
/// letter T, hour, minute, second.
pub open spec fn date_format() -> Seq<char> {
    "%Y%m%dT%H%M%S"@
}

/// What reading the instant of a date property gives.
pub enum DateRead {
    /// The instant.
    At(Time),
    /// The property is malformed.
    Malformed,
    /// The time zone is not known.
    UnknownZone,
    /// The value is no date.
    NoDate,
}

/// What reading the instant of a date property gives: its value is a date
/// and time in the time zone that its parameter `TZID` names.
///
/// A property without that parameter is malformed; then the time zone has to
/// be known; a property without a value is malformed; then the value has to
/// be a date; and a date that the clocks of the zone show never or twice
/// counts as malformed.
pub open spec fn date_read(event: EventProperty) -> DateRead {
    match zone_name(event.params.deep_view()) {
        None => DateRead::Malformed,
        Some(zone) => if !zone_known(zone) {
            DateRead::UnknownZone
        } else {
            match event.value {
                None => DateRead::Malformed,
                Some(text) => match naive_seconds(text@, date_format()) {
                    None => DateRead::NoDate,
                    Some(naive) => match instant_in_zone(zone, naive) {
                        Some(at) => DateRead::At(at),
                        None => DateRead::Malformed,
                    },
                },
            }
        },
    }
}

/// Whether `r` reports what was read: the instant, or the error that stands
/// for what went wrong.
pub open spec fn reports(r: Result<Time, EventToTaskError>, read: DateRead) -> bool {
    match read {
        DateRead::At(at) => r matches Ok(given) && given == at,
        DateRead::Malformed => r matches Err(EventToTaskError::MalformedEvent),
        DateRead::UnknownZone => r matches Err(EventToTaskError::TzError(_)),
        DateRead::NoDate => r matches Err(EventToTaskError::ChronoError(_)),
    }
}

/// Reads the instant of a date property: see [`date_read`].
pub fn date_conversion(event: &EventProperty) -> (r: Result<Time, EventToTaskError>)
    ensures
        reports(r, date_read(*event)),
{
    let params = match &event.params {
        Some(params) => params,
        None => {
            return Err(EventToTaskError::MalformedEvent);
        },
    };
    let ghost names = params.deep_view();
    let wanted = "TZID".to_owned();
    let mut i: usize = 0;
    while i < params.len() && params[i].0 != wanted
        invariant
            i <= params.len(),
            names == params.deep_view(),
            wanted@ == "TZID"@,
            first_named(names, "TZID"@, 0) == first_named(names, "TZID"@, i as int),
        decreases params.len() - i,
    {
        assert(names[i as int].0 == params[i as int].0@);
        i = i + 1;
    }
    if i >= params.len() {
        return Err(EventToTaskError::MalformedEvent);
    }
    assert(names[i as int].0 == params[i as int].0@);
    assert(names[i as int].1 == params[i as int].1.deep_view());
    if params[i].1.len() == 0 {
        return Err(EventToTaskError::MalformedEvent);
    }
    assert(names[i as int].1[0] == params[i as int].1[0]@);
    let zone = params[i].1[0].as_str();
    match parse_zone(zone) {
        Ok(_) => {},
        Err(e) => {
            return Err(EventToTaskError::TzError(e));
        },
    }
    let text = match &event.value {
        Some(text) => text,
        None => {
            return Err(EventToTaskError::MalformedEvent);
        },
    };
    let naive = match parse_naive(text.as_str(), "%Y%m%dT%H%M%S") {
        Ok(naive) => naive,
        Err(e) => {
            return Err(EventToTaskError::ChronoError(e));
        },
    };
    match local_to_utc(zone, naive) {
        Some(at) => Ok(at),
        None => Err(EventToTaskError::MalformedEvent),
    }
}

/// A calendar event: its properties, in the order in which they were read.
#[derive(Debug)]
pub struct Event {
    /// The properties of the event.
    pub properties: Vec<EventProperty>,
}

impl Event {
    /// The value of the property of this name, as contracts speak of it: that
    /// of the last property of the name, if it has one.
    pub open spec fn value_named(self, name: Seq<char>) -> Option<Seq<char>> {
        match last_named(self.properties@, name, self.properties.len() as int) {
            Some(i) => match self.properties[i].value {
                Some(value) => Some(value@),
                None => None,
            },
            None => None,
        }
    }

    /// The property of this name: where several have it, the last.
    pub fn property(&self, name: &str) -> (r: Option<&EventProperty>)
        ensures
            match last_named(self.properties@, name@, self.properties.len() as int) {
                Some(i) => r == Some(&self.properties[i]),
                None => r is None,
            },
    {
        let wanted = name.to_owned();
        let mut i: usize = self.properties.len();
        while i > 0
            invariant
                i <= self.properties.len(),
                wanted@ == name@,
                last_named(self.properties@, name@, self.properties.len() as int) == last_named(
                    self.properties@,
                    name@,
                    i as int,
                ),
            decreases i,
        {
            if self.properties[i - 1].name == wanted {
                return Some(&self.properties[i - 1]);
            }
            i = i - 1;
        }
        None
    }

    /// A copy of the value of the property of this name.
    pub fn value(&self, name: &str) -> (r: Option<String>)
        ensures
            r.deep_view() == self.value_named(name@),
    {
        match self.property(name) {
            Some(property) => match &property.value {
                Some(value) => Some(value.clone()),
                None => None,
            },
            None => None,
        }
    }
}

/// Whether `task` is the task of an event with this summary and this ID
/// that starts at `end`, made at the instant `now`: it is due at the start of
/// the event, can be worked on from now, and takes an hour unless it is due
/// already.
pub open spec fn task_of_event(task: CTask, name: Seq<char>, end: Time, id: Seq<char>, now: Time) -> bool {
    &&& task.name@ == name
    &&& task.remote_id matches Some(remote) && remote@ == id
    &&& task.priority == 0
    &&& task.worked_length == 0
    &&& task.working_period.end == end
    &&& task.working_period.start == if now <= end {
        now
    } else {
        end
    }
    &&& task.estimated_length == if end > now {
        60 * 60u64
    } else {
        0
    }
}

/// Whether `r` is what a calendar event gives, at the instant `now`.
///
/// An event without a summary is malformed, and so is one without a start;
/// then the start has to be read, and what goes wrong there is reported;
/// an event without an ID is malformed; and else the event gives its task,
/// due at its start.
pub open spec fn task_read(event: Event, now: Time, r: Result<CTask, EventToTaskError>) -> bool {
    match event.value_named("SUMMARY"@) {
        None => r matches Err(EventToTaskError::MalformedEvent),
        Some(name) => match last_named(
            event.properties@,
            "DTSTART"@,
            event.properties.len() as int,
        ) {
            None => r matches Err(EventToTaskError::MalformedEvent),
            Some(i) => match date_read(event.properties[i]) {
                DateRead::Malformed => r matches Err(EventToTaskError::MalformedEvent),
                DateRead::UnknownZone => r matches Err(EventToTaskError::TzError(_)),
                DateRead::NoDate => r matches Err(EventToTaskError::ChronoError(_)),
                DateRead::At(end) => match event.value_named("UID"@) {
                    None => r matches Err(EventToTaskError::MalformedEvent),
                    Some(id) => r matches Ok(task) && task_of_event(task, name, end, id, now),
                },
            },
        },
    }
}

impl CTask {
    /// The task of an event with this summary and this ID that starts at
    /// `end`, made at the instant `now`.
    pub fn from_parts(name: String, end: Time, id: String, now: Time) -> (task: CTask)
        ensures
            task_of_event(task, name@, end, id@, now),
    {
        CTask {
            priority: 0,
            working_period: (if now <= end {
                now
            } else {
                end
            })..end,
            estimated_length: if end > now {
                60 * 60
            } else {
                0
            },
            worked_length: 0,
            name,
            remote_id: Some(id),
        }
    }

    /// The task of a calendar event, as [`CTask::from_event`] makes it when
    /// the clock shows `now`: see [`task_read`].
    pub fn from_event_at(event: &Event, now: Time) -> (r: Result<CTask, EventToTaskError>)
        ensures
            task_read(*event, now, r),
    {
        let name = match event.value("SUMMARY") {
            Some(name) => name,
            None => {
                return Err(EventToTaskError::MalformedEvent);
            },
        };
        let start = match event.property("DTSTART") {
            Some(start) => start,
            None => {
                return Err(EventToTaskError::MalformedEvent);
            },
        };
        let end = match date_conversion(start) {
            Ok(end) => end,
            Err(e) => {
                return Err(e);
            },
        };
        let id = match event.value("UID") {
            Some(id) => id,
            None => {
                return Err(EventToTaskError::MalformedEvent);
            },
        };
        Ok(CTask::from_parts(name, end, id, now))
    }

    /// The task of a calendar event, made at the instant that the clock
    /// shows.
    pub fn from_event(event: &Event) -> (r: Result<CTask, EventToTaskError>)
        ensures
            exists|now: Time| clock_shows(now) && #[trigger] task_read(*event, now, r),
    {
        let now = read_clock();
        CTask::from_event_at(event, now)
    }
}

} // verus!
