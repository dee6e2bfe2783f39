use urtrends::clock::{
    checked_time_offset, format_time_offset, move_clock, FIRST_SECOND, LAST_SECOND, LEAP_NANOS,
};

#[test]
fn moves_a_naive_timestamp() {
    assert_eq!(format_time_offset("2024-03-01 00:30:00", -60), "2024-02-29 23:30:00");
    assert_eq!(format_time_offset("2024-12-31 23:59:59", 1), "2025-01-01 00:00:59");
    assert_eq!(format_time_offset("2024-06-15 12:00:00", 0), "2024-06-15 12:00:00");
}

#[test]
fn moves_an_rfc3339_timestamp() {
    assert_eq!(format_time_offset("2026-05-24T22:15:00Z", -1440), "2026-05-23 22:15:00");
    assert_eq!(format_time_offset("2026-05-24T22:15:00.75Z", -10080), "2026-05-17 22:15:00");
}

#[test]
fn writes_a_timestamp_with_a_t_back_with_a_t() {
    assert_eq!(format_time_offset("2026-05-24T22:15:00", -60), "2026-05-24T21:15:00");
    assert_eq!(format_time_offset("2026-05-24T22:15:00", -1440), "2026-05-23T22:15:00");
    assert_eq!(format_time_offset("2016-12-31T23:59:60", 1), "2017-01-01T00:00:59");
    assert_eq!(checked_time_offset("+262142-12-31T23:59:59", 1), None);
    assert_eq!(
        checked_time_offset("+262142-12-31T23:58:59", 1),
        Some("+262142-12-31T23:59:59".to_string())
    );
    let there = format_time_offset("+12345-01-01T00:00:00", -1);
    assert_eq!(there, "+12344-12-31T23:59:00");
    assert_eq!(format_time_offset(&there, 1), "+12345-01-01T00:00:00");
}

#[test]
fn a_plain_timestamp_comes_back() {
    for text in [
        "2026-05-24 22:15:00",
        "2026-05-24T22:15:00",
        "0000-01-01 00:00:00",
        "9999-12-31T23:59:59",
        "2024-02-29 12:00:59",
        "2024-02-30T00:00:00",
        "2024-13-01 00:00:00",
        "2024-01-01 24:00:00",
    ] {
        assert_eq!(format_time_offset(text, 0), text);
        for minutes in [1, -1, 1440, -43200, i32::MAX] {
            let there = format_time_offset(text, minutes);
            assert_eq!(format_time_offset(&there, -minutes), text);
        }
    }
    for text in ["2016-12-31 23:59:60", "2024-01-01T00:00:60"] {
        assert_eq!(format_time_offset(text, 0), text);
    }
}

#[test]
fn keeps_the_local_clock_of_an_rfc3339_timestamp() {
    assert_eq!(format_time_offset("2024-01-01T01:00:00+02:00", -60), "2024-01-01 00:00:00");
    assert_eq!(format_time_offset("2024-01-01T01:00:00-08:30", 0), "2024-01-01 01:00:00");
}

#[test]
fn leaves_unreadable_timestamps_alone() {
    for text in ["", "not a time", "2026-05-24t22:15:00", "2024-02-30 00:00:00", "2024-01-01"] {
        assert_eq!(format_time_offset(text, -60), text);
        assert_eq!(checked_time_offset(text, 43200), Some(text.to_string()));
    }
}

#[test]
fn goes_back_thirty_days() {
    assert_eq!(format_time_offset("2026-03-31 12:15:00", -43200), "2026-03-01 12:15:00");
}

#[test]
fn moves_a_leap_second() {
    assert_eq!(format_time_offset("2016-12-31 23:59:60", 0), "2016-12-31 23:59:60");
    assert_eq!(format_time_offset("2016-12-31 23:59:60", 1), "2017-01-01 00:00:59");
    assert_eq!(format_time_offset("2016-12-31 23:59:60", -1), "2016-12-31 23:59:00");
}

#[test]
fn moving_twice_comes_to_moving_once() {
    let start = "2024-02-28T23:50:00+01:00";
    for (first, second) in [(-60, -1380), (15, 30), (1440, -1440), (0, 7)] {
        let there = format_time_offset(start, first);
        assert_eq!(format_time_offset(&there, second), format_time_offset(start, first + second));
    }
}

#[test]
fn refuses_a_move_out_of_range() {
    assert_eq!(checked_time_offset("+262142-12-31 23:59:59", 1), None);
    assert_eq!(
        checked_time_offset("+262142-12-31 23:58:59", 1),
        Some("+262142-12-31 23:59:59".to_string())
    );
    assert_eq!(checked_time_offset("-262143-01-01 00:00:00", -1), None);
}

#[test]
fn moves_a_clock_reading() {
    assert_eq!(move_clock(0, 0, -60), Some((-3600, 0)));
    assert_eq!(move_clock(10, 999_999_999, 1), Some((70, 0)));
    assert_eq!(move_clock(59, LEAP_NANOS + 5, 1), Some((119, 0)));
    assert_eq!(move_clock(59, LEAP_NANOS, -1), Some((0, 0)));
    assert_eq!(move_clock(59, LEAP_NANOS, 0), Some((59, LEAP_NANOS)));
    assert_eq!(move_clock(LAST_SECOND, 0, 0), Some((LAST_SECOND, 0)));
    assert_eq!(move_clock(LAST_SECOND, 0, 1), None);
    assert_eq!(move_clock(FIRST_SECOND, 0, -1), None);
    assert_eq!(move_clock(FIRST_SECOND, 0, i32::MAX), Some((FIRST_SECOND + 60 * 2147483647, 0)));
}
