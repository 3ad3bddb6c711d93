use pomeranian::db::CTask;
use pomeranian::event::{date_conversion, Event, EventProperty, EventToTaskError};
use pomeranian::scheduler::Task;

fn property(name: &str, zone: Option<&str>, value: Option<&str>) -> EventProperty {
    EventProperty {
        name: name.to_string(),
        params: zone.map(|zone| {
            vec![
                ("VALUE".to_string(), vec!["DATE-TIME".to_string()]),
                ("TZID".to_string(), vec![zone.to_string(), "Europe/Paris".to_string()]),
                ("TZID".to_string(), vec!["Asia/Tokyo".to_string()]),
            ]
        }),
        value: value.map(|value| value.to_string()),
    }
}

#[test]
fn date_in_its_time_zone() {
    let start = property("DTSTART", Some("America/New_York"), Some("20240330T120000"));
    // Noon in New York on 30 March 2024 is 16:00 UTC.
    assert_eq!(date_conversion(&start).unwrap(), 1_711_814_400);
    let utc = property("DTSTART", Some("UTC"), Some("19700101T000100"));
    assert_eq!(date_conversion(&utc).unwrap(), 60);
}

#[test]
fn date_errors() {
    let no_params = property("DTSTART", None, Some("20240330T120000"));
    assert!(matches!(date_conversion(&no_params), Err(EventToTaskError::MalformedEvent)));
    let no_zone = EventProperty {
        name: "DTSTART".to_string(),
        params: Some(vec![("VALUE".to_string(), vec!["DATE".to_string()])]),
        value: Some("20240330T120000".to_string()),
    };
    assert!(matches!(date_conversion(&no_zone), Err(EventToTaskError::MalformedEvent)));
    let empty_zone = EventProperty {
        name: "DTSTART".to_string(),
        params: Some(vec![("TZID".to_string(), vec![])]),
        value: Some("20240330T120000".to_string()),
    };
    assert!(matches!(date_conversion(&empty_zone), Err(EventToTaskError::MalformedEvent)));
    let unknown = property("DTSTART", Some("Mars/Olympus"), Some("20240330T120000"));
    assert!(matches!(date_conversion(&unknown), Err(EventToTaskError::TzError(_))));
    let unknown_without_value = property("DTSTART", Some("Mars/Olympus"), None);
    assert!(matches!(date_conversion(&unknown_without_value), Err(EventToTaskError::TzError(_))));
    let no_value = property("DTSTART", Some("UTC"), None);
    assert!(matches!(date_conversion(&no_value), Err(EventToTaskError::MalformedEvent)));
    let no_date = property("DTSTART", Some("UTC"), Some("30 March 2024"));
    assert!(matches!(date_conversion(&no_date), Err(EventToTaskError::ChronoError(_))));
    // In New York the clocks showed no 2:30 on 10 March 2024.
    let skipped = property("DTSTART", Some("America/New_York"), Some("20240310T023000"));
    assert!(matches!(date_conversion(&skipped), Err(EventToTaskError::MalformedEvent)));
}

fn event(summary: bool, start: bool, uid: bool) -> Event {
    let mut properties = vec![];
    if summary {
        properties.push(property("SUMMARY", None, Some("Draft")));
        properties.push(property("SUMMARY", None, Some("Hand in the essay")));
    }
    if start {
        properties.push(property("DTSTART", Some("UTC"), Some("20240330T120000")));
    }
    if uid {
        properties.push(property("UID", None, Some("essay-1")));
    }
    Event { properties }
}

#[test]
fn task_of_an_event() {
    let due = 1_711_800_000;
    let task = CTask::from_event_at(&event(true, true, true), due - 500).unwrap();
    assert_eq!(
        task,
        CTask {
            priority: 0,
            working_period: (due - 500)..due,
            estimated_length: 3600,
            worked_length: 0,
            name: "Hand in the essay".to_string(),
            remote_id: Some("essay-1".to_string()),
        }
    );
    let late = CTask::from_event_at(&event(true, true, true), due + 500).unwrap();
    assert_eq!(late.working_period, due..due);
    assert_eq!(late.estimated_length, 0);
    assert_eq!(late.divided_into(1500), 0);
    let at_once = CTask::from_event_at(&event(true, true, true), due).unwrap();
    assert_eq!(at_once.working_period, due..due);
    assert_eq!(at_once.estimated_length, 0);
    assert!(CTask::from_event(&event(true, true, true)).is_ok());
}

#[test]
fn events_that_give_no_task() {
    for (summary, start, uid) in [(false, true, true), (true, false, true), (true, true, false)] {
        assert!(matches!(
            CTask::from_event_at(&event(summary, start, uid), 0),
            Err(EventToTaskError::MalformedEvent)
        ));
    }
    let mut unknown = event(true, false, true);
    unknown.properties.push(property("DTSTART", Some("Nowhere"), Some("20240330T120000")));
    assert!(matches!(CTask::from_event_at(&unknown, 0), Err(EventToTaskError::TzError(_))));
    let mut empty = event(true, true, true);
    empty.properties.push(property("SUMMARY", None, None));
    assert!(matches!(CTask::from_event_at(&empty, 0), Err(EventToTaskError::MalformedEvent)));
}

#[test]
fn the_last_property_of_a_name_counts() {
    let event = event(true, true, true);
    assert_eq!(event.value("SUMMARY"), Some("Hand in the essay".to_string()));
    assert_eq!(event.value("UID"), Some("essay-1".to_string()));
    assert_eq!(event.value("LOCATION"), None);
    assert_eq!(event.property("DTSTART").unwrap().value, Some("20240330T120000".to_string()));
    assert!(event.property("DTEND").is_none());
}
