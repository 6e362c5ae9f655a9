use task_sched::caldotcom::{CalendarConnection, Calendars, ConnectedCalendar};
use task_sched::dates;
use task_sched::free_time::{DateTimeRange, FreeTime};
use task_sched::taskwarrior::{micro_to_decimal, Taskwarrior};

#[test]
fn tw_datetime_parses_utc_timestamps() {
    assert_eq!(dates::tw_datetime("19700101T000000Z"), Some(0));
    assert_eq!(dates::tw_datetime("19700102T000130Z"), Some(86400 + 90));
    assert_eq!(dates::tw_datetime("20240115T103000Z"), Some(1705314600));
    // a leap day
    assert_eq!(dates::tw_datetime("20240229T000000Z"), Some(1709164800));
    // before the epoch
    assert_eq!(dates::tw_datetime("19691231T235959Z"), Some(-1));
}

#[test]
fn tw_datetime_rejects_malformed_timestamps() {
    assert_eq!(dates::tw_datetime(""), None);
    assert_eq!(dates::tw_datetime("2024-01-15T10:30:00Z"), None);
    assert_eq!(dates::tw_datetime("20240115T103000"), None);
    assert_eq!(dates::tw_datetime("20240115X103000Z"), None);
    assert_eq!(dates::tw_datetime("202401aaT103000Z"), None);
    // the thirtieth of February does not exist
    assert_eq!(dates::tw_datetime("20230230T000000Z"), None);
    // 2023 was not a leap year
    assert_eq!(dates::tw_datetime("20230229T000000Z"), None);
    assert_eq!(dates::tw_datetime("20240115T243000Z"), None);
    assert_eq!(dates::tw_datetime("20240100T103000Z"), None);
    assert_eq!(dates::tw_datetime("20241315T103000Z"), None);
}

#[test]
fn duration_reads_iso8601_seconds() {
    assert_eq!(dates::duration("PT20M"), Some(Some(1200)));
    assert_eq!(dates::duration("PT1H30M"), Some(Some(5400)));
    assert_eq!(dates::duration("P2DT1S"), Some(Some(2 * 86400 + 1)));
    // years and months have no fixed length in seconds
    assert_eq!(dates::duration("P1Y"), Some(None));
    assert_eq!(dates::duration("half an hour"), None);
    assert_eq!(dates::duration(""), None);
}

#[test]
fn duration_screens_overflowing_components() {
    // enormous components would overflow the underlying seconds
    // conversion, so they are treated as malformed
    assert_eq!(dates::duration("PT10000000000000000S"), None);
    assert_eq!(dates::duration("PT1e30S"), None);
    assert_eq!(dates::duration("PT-5S"), None);
    // components that fit exactly stay well within range
    assert_eq!(dates::duration("PT9999999S"), Some(Some(9_999_999)));
}

#[test]
fn micro_to_decimal_renders_coefficients() {
    assert_eq!(micro_to_decimal(0), "0");
    assert_eq!(micro_to_decimal(2_500_000), "2.5");
    assert_eq!(micro_to_decimal(-500_000), "-0.5");
    assert_eq!(micro_to_decimal(1_000_000), "1");
    assert_eq!(micro_to_decimal(123), "0.000123");
    assert_eq!(micro_to_decimal(-12_345_678), "-12.345678");
}

#[test]
fn free_time_blocking() {
    let window = FreeTime::new(10, 20);
    // a range the window spans blots it out entirely
    assert_eq!(window.block(&DateTimeRange { start: 10, end: 20 }), FreeTime::Blocked);
    assert_eq!(window.block(&DateTimeRange { start: 12, end: 18 }), FreeTime::Blocked);
    // a range reaching outside the window leaves it as it was
    assert_eq!(window.block(&DateTimeRange { start: 5, end: 15 }), window);
    assert_eq!(window.block(&DateTimeRange { start: 15, end: 25 }), window);
    // blocked stays blocked
    assert_eq!(
        FreeTime::Blocked.block(&DateTimeRange { start: 0, end: 1 }),
        FreeTime::Blocked
    );
}

#[test]
fn selected_calendars_are_flattened_in_order() {
    let calendars = Calendars {
        connected_calendars: vec![
            CalendarConnection {
                credential_id: 7,
                calendars: vec![
                    ConnectedCalendar {
                        external_id: "work".to_string(),
                        is_selected: true,
                    },
                    ConnectedCalendar {
                        external_id: "spam".to_string(),
                        is_selected: false,
                    },
                ],
            },
            CalendarConnection {
                credential_id: 9,
                calendars: vec![ConnectedCalendar {
                    external_id: "home".to_string(),
                    is_selected: true,
                }],
            },
        ],
    };
    let selected = calendars.selected_calendars();
    assert_eq!(
        selected,
        vec![(7, "work".to_string()), (9, "home".to_string())]
    );
}

#[test]
fn export_builder_collects_arguments() {
    let tw = Taskwarrior::new("task".to_string());
    assert_eq!(tw.binary(), "task");
    let builder = tw
        .export()
        .with_urgency_coefficient("due", 0)
        .with_urgency_coefficient("age", 2_500_000)
        .with_filter("status:pending");
    assert_eq!(builder.binary, "task");
    assert_eq!(
        builder.urgency_coefficients,
        vec![("due".to_string(), 0), ("age".to_string(), 2_500_000)]
    );
    assert_eq!(builder.filters, vec!["status:pending".to_string()]);
}

#[test]
fn export_builder_replaces_repeated_keys() {
    let tw = Taskwarrior::new("task".to_string());
    let builder = tw
        .export()
        .with_urgency_coefficient("due", 0)
        .with_urgency_coefficient("due", 7);
    assert_eq!(builder.urgency_coefficients, vec![("due".to_string(), 7)]);
}
