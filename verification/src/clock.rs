//! Timestamps: reading them, moving them by minutes and writing them back.
//!
//! A timestamp is read as a clock reading: the date and time of day that it shows, counted in
//! seconds from 1970-01-01 00:00:00 on that same clock, and the nanoseconds within the second.
//! A leap second is the second before it with a billion nanoseconds more.

use vstd::prelude::*;

use crate::text::is_digit;

verus! {

/// How a timestamp without a time zone is read first, and how a moved one is written unless it was
/// read as [`ISO_FORMAT`].
pub const CLOCK_FORMAT: &'static str = "%Y-%m-%d %H:%M:%S";

/// How a timestamp without a time zone is read next, and then written back.
pub const ISO_FORMAT: &'static str = "%Y-%m-%dT%H:%M:%S";

/// Whether a format is one of the two that timestamps without a time zone have.
pub open spec fn is_clock_format(format: Seq<char>) -> bool {
    format == CLOCK_FORMAT@ || format == ISO_FORMAT@
}

/// Whether a text has the form `YYYY-MM-DD HH:MM:SS`, with a given character between the date and
/// the time of day. The digits need not make a date.
pub open spec fn has_clock_form(text: Seq<char>, separator: char) -> bool {
    &&& text.len() == 19
    &&& forall|i: int|
        0 <= i < 19 ==> if i == 4 || i == 7 {
            #[trigger] text[i] == '-'
        } else if i == 10 {
            text[i] == separator
        } else if i == 13 || i == 16 {
            text[i] == ':'
        } else {
            is_digit(text[i])
        }
}

/// Whether a text has the form of a timestamp without a time zone: all of its numbers have their
/// full width, and a space or a `T` stands before the time of day.
pub open spec fn is_plain_timestamp(text: Seq<char>) -> bool {
    has_clock_form(text, ' ') || has_clock_form(text, 'T')
}

/// Whether a text has the form that a format gives to the years 0 to 9999.
pub open spec fn has_form_of(text: Seq<char>, format: Seq<char>) -> bool {
    ||| format == CLOCK_FORMAT@ && has_clock_form(text, ' ')
    ||| format == ISO_FORMAT@ && has_clock_form(text, 'T')
}

/// The first second that a clock reading can show, the start of the year -262143.
pub const FIRST_SECOND: i64 = -8_334_601_228_800;

/// The last second that a clock reading can show, the end of the year 262142.
pub const LAST_SECOND: i64 = 8_210_266_876_799;

/// The nanoseconds from which on a reading shows a leap second.
pub const LEAP_NANOS: u32 = 1_000_000_000;

/// Whether seconds and nanoseconds make a clock reading: a leap second is a sixtieth second.
pub open spec fn is_reading(seconds: i64, nanos: u32) -> bool {
    &&& FIRST_SECOND <= seconds <= LAST_SECOND
    &&& nanos < 2 * LEAP_NANOS
    &&& nanos >= LEAP_NANOS ==> seconds % 60 == 59
}

/// Whether what a timestamp was read as, if anything, is a clock reading.
pub open spec fn is_reading_or_none(reading: Option<(i64, u32)>) -> bool {
    reading matches Some(r) ==> is_reading(r.0, r.1)
}

/// The clock reading of an RFC 3339 timestamp on its own local clock, as
/// `chrono::DateTime::parse_from_rfc3339` reads it; `None` where it is no such timestamp.
pub uninterp spec fn rfc3339_reading(text: Seq<char>) -> Option<(i64, u32)>;

/// The clock reading of a timestamp in a given format, as
/// `chrono::NaiveDateTime::parse_from_str` reads it; `None` where it is not in that format.
pub uninterp spec fn naive_reading(text: Seq<char>, format: Seq<char>) -> Option<(i64, u32)>;

/// The text of a clock reading in a given format, as `chrono::NaiveDateTime::format` writes it.
pub uninterp spec fn clock_text(seconds: i64, nanos: u32, format: Seq<char>) -> Seq<char>;

/// `chrono::DateTime::parse_from_rfc3339`. The contract gives what it reads, taken as the local
/// clock reading, the name [`rfc3339_reading`], and says that it is a clock reading, and that a
/// timestamp without a time zone is not read.
#[verifier::external_body]
fn read_rfc3339(text: &str) -> (reading: Option<(i64, u32)>)
    ensures
        reading == rfc3339_reading(text@),
        is_reading_or_none(reading),
        is_plain_timestamp(text@) ==> reading is None,
{
    match chrono::DateTime::parse_from_rfc3339(text) {
        Ok(stamp) => Some(
            (stamp.naive_local().and_utc().timestamp(), stamp.timestamp_subsec_nanos()),
        ),
        Err(_) => None,
    }
}

/// `chrono::NaiveDateTime::parse_from_str`. The contract gives what it reads the name
/// [`naive_reading`], and says that it is a clock reading. A text that has the form of the format
/// is what `chrono::NaiveDateTime::format` writes for its reading, and one that has the form of
/// the other format is not read.
#[verifier::external_body]
fn read_naive(text: &str, format: &str) -> (reading: Option<(i64, u32)>)
    requires
        is_clock_format(format@),
    ensures
        reading == naive_reading(text@, format@),
        is_reading_or_none(reading),
        reading matches Some(r) ==> (has_form_of(text@, format@) ==> text@ == clock_text(
            r.0,
            whole_nanos(r.1),
            format@,
        )),
        format@ == CLOCK_FORMAT@ && has_clock_form(text@, 'T') ==> reading is None,
        format@ == ISO_FORMAT@ && has_clock_form(text@, ' ') ==> reading is None,
{
    match chrono::NaiveDateTime::parse_from_str(text, format) {
        Ok(stamp) => Some((stamp.and_utc().timestamp(), stamp.and_utc().timestamp_subsec_nanos())),
        Err(_) => None,
    }
}

/// The seconds that a clock reading shows after some minutes. No leap second is counted but the
/// one that the reading itself may show: it is left at its start going forward, and at its end
/// going back.
pub open spec fn moved_seconds(seconds: int, nanos: int, minutes: int) -> int {
    if nanos >= LEAP_NANOS && minutes < 0 {
        seconds + 1 + 60 * minutes
    } else {
        seconds + 60 * minutes
    }
}

/// The nanoseconds that a clock reading shows after some minutes.
pub open spec fn moved_nanos(nanos: int, minutes: int) -> int {
    if nanos >= LEAP_NANOS && minutes != 0 {
        nanos - LEAP_NANOS
    } else {
        nanos
    }
}

/// `chrono::NaiveDateTime::checked_add_signed` with a `chrono::TimeDelta` of whole minutes, on a
/// clock reading. The contract says that it moves the reading by that many minutes, and that
/// there is no result just where that lies outside the readings that can be shown.
#[verifier::external_body]
fn move_reading(seconds: i64, nanos: u32, minutes: i32) -> (moved: Option<(i64, u32)>)
    requires
        is_reading(seconds, nanos),
    ensures
        moved is Some <==> FIRST_SECOND <= moved_seconds(
            seconds as int,
            nanos as int,
            minutes as int,
        ) <= LAST_SECOND,
        moved matches Some(m) ==> {
            &&& m.0 == moved_seconds(seconds as int, nanos as int, minutes as int)
            &&& m.1 == moved_nanos(nanos as int, minutes as int)
        },
{
    let stamp = chrono::DateTime::from_timestamp(seconds, nanos)?.naive_utc();
    let moved = stamp.checked_add_signed(chrono::TimeDelta::minutes(minutes as i64))?;
    Some((moved.and_utc().timestamp(), moved.and_utc().timestamp_subsec_nanos()))
}

/// `chrono::NaiveDateTime::format`, as a text. The contract gives the text the name
/// [`clock_text`], and says what reads it back: it is no RFC 3339 timestamp, read in the same
/// format it shows the same second, and with a `T` it is not read in the format that has a space
/// there.
#[verifier::external_body]
fn write_reading(seconds: i64, nanos: u32, format: &str) -> (text: String)
    requires
        is_reading(seconds, nanos),
        is_clock_format(format@),
    ensures
        text@ == clock_text(seconds, nanos, format@),
        rfc3339_reading(text@) is None,
        naive_reading(text@, format@) == Some((seconds, whole_nanos(nanos))),
        format@ == ISO_FORMAT@ ==> naive_reading(text@, CLOCK_FORMAT@) is None,
{
    let stamp = chrono::DateTime::from_timestamp(seconds, nanos).unwrap().naive_utc();
    stamp.format(format).to_string()
}

/// The nanoseconds of a reading without the fraction of its second: only whether it is a leap
/// second is left.
pub open spec fn whole_nanos(nanos: u32) -> u32 {
    if nanos >= LEAP_NANOS {
        LEAP_NANOS
    } else {
        0
    }
}

/// The clock reading of a timestamp, in whole seconds: RFC 3339 is tried first, then
/// [`CLOCK_FORMAT`], then [`ISO_FORMAT`].
pub open spec fn reading_of(timestamp: Seq<char>) -> Option<(i64, u32)> {
    let reading = if rfc3339_reading(timestamp) is Some {
        rfc3339_reading(timestamp)
    } else if naive_reading(timestamp, CLOCK_FORMAT@) is Some {
        naive_reading(timestamp, CLOCK_FORMAT@)
    } else {
        naive_reading(timestamp, ISO_FORMAT@)
    };
    match reading {
        Some(r) => Some((r.0, whole_nanos(r.1))),
        None => None,
    }
}

/// How a timestamp that can be read is written once it is moved: as [`ISO_FORMAT`] where it is read
/// so, and else as [`CLOCK_FORMAT`].
pub open spec fn format_of(timestamp: Seq<char>) -> Seq<char> {
    if rfc3339_reading(timestamp) is None && naive_reading(timestamp, CLOCK_FORMAT@) is None {
        ISO_FORMAT@
    } else {
        CLOCK_FORMAT@
    }
}

/// Whether a timestamp can be moved by some minutes: it cannot be read, or what it shows then is
/// still a second that a clock reading can show.
pub open spec fn can_move(timestamp: Seq<char>, minutes: int) -> bool {
    reading_of(timestamp) matches Some(r) ==> FIRST_SECOND <= moved_seconds(
        r.0 as int,
        r.1 as int,
        minutes,
    ) <= LAST_SECOND
}

/// A timestamp moved by some minutes. One that cannot be read stays as it is.
pub open spec fn moved_timestamp(timestamp: Seq<char>, minutes: int) -> Seq<char> {
    match reading_of(timestamp) {
        Some(r) => clock_text(
            moved_seconds(r.0 as int, r.1 as int, minutes) as i64,
            moved_nanos(r.1 as int, minutes) as u32,
            format_of(timestamp),
        ),
        None => timestamp,
    }
}

/// Whether a timestamp shows a leap second.
pub open spec fn shows_leap_second(timestamp: Seq<char>) -> bool {
    reading_of(timestamp) matches Some(r) && r.1 >= LEAP_NANOS
}

/// Whether a first move is none, or ends on the side of the start on which both moves together
/// end.
pub open spec fn same_side(first: int, both: int) -> bool {
    ||| first == 0
    ||| first > 0 && both > 0
    ||| first < 0 && both < 0
}

/// The clock reading of a timestamp, and how the timestamp is written once it is moved.
fn read_timestamp(timestamp: &str) -> (reading: Option<(i64, u32, &'static str)>)
    ensures
        reading is Some <==> reading_of(timestamp@) is Some,
        reading matches Some(r) ==> {
            &&& is_reading(r.0, r.1)
            &&& reading_of(timestamp@) == Some((r.0, whole_nanos(r.1)))
            &&& r.2@ == format_of(timestamp@)
        },
        is_plain_timestamp(timestamp@) ==> moved_timestamp(timestamp@, 0) == timestamp@,
{
    if let Some((seconds, nanos)) = read_rfc3339(timestamp) {
        return Some((seconds, nanos, CLOCK_FORMAT));
    }
    if let Some((seconds, nanos)) = read_naive(timestamp, CLOCK_FORMAT) {
        return Some((seconds, nanos, CLOCK_FORMAT));
    }
    match read_naive(timestamp, ISO_FORMAT) {
        Some((seconds, nanos)) => Some((seconds, nanos, ISO_FORMAT)),
        None => None,
    }
}

/// The whole second that a clock reading shows after some minutes; `None` where that is none that
/// a clock reading can show.
pub fn move_clock(seconds: i64, nanos: u32, minutes: i32) -> (moved: Option<(i64, u32)>)
    requires
        is_reading(seconds, nanos),
    ensures
        moved is Some <==> FIRST_SECOND <= moved_seconds(
            seconds as int,
            whole_nanos(nanos) as int,
            minutes as int,
        ) <= LAST_SECOND,
        moved matches Some(m) ==> {
            &&& m.0 == moved_seconds(seconds as int, whole_nanos(nanos) as int, minutes as int)
            &&& m.1 == moved_nanos(whole_nanos(nanos) as int, minutes as int)
            &&& is_reading(m.0, m.1)
            &&& nanos < 1_000_000_000 ==> m.0 - seconds == 60 * minutes && m.1 == 0
        },
        nanos < 1_000_000_000 ==> (moved is Some <==> -8_334_601_228_800 <= seconds + 60 * minutes
            <= 8_210_266_876_799),
{
    let whole: u32 = if nanos >= LEAP_NANOS {
        LEAP_NANOS
    } else {
        0
    };
    move_reading(seconds, whole, minutes)
}

/// Moves a timestamp by some minutes. One that is read as RFC 3339 or as [`CLOCK_FORMAT`] is
/// written as [`CLOCK_FORMAT`], and one that is read as [`ISO_FORMAT`] is written so again. A
/// timestamp that can be read in none of these ways is given back as it is.
///
/// A moved timestamp can be moved on, and that comes to the same as moving the first one by both
/// at once. A timestamp that already is as moved ones are written is kept by a move of no minutes,
/// and comes back by a move there and back. Only for a leap second this asks that no move leads
/// back to it or past it.
pub fn format_time_offset(timestamp: &str, offset_minutes: i32) -> (moved: String)
    requires
        can_move(timestamp@, offset_minutes as int),
    ensures
        moved@ == moved_timestamp(timestamp@, offset_minutes as int),
        reading_of(timestamp@) matches Some(r) ==> reading_of(moved@) == Some(
            (
                moved_seconds(r.0 as int, r.1 as int, offset_minutes as int) as i64,
                moved_nanos(r.1 as int, offset_minutes as int) as u32,
            ),
        ),
        format_of(moved@) == format_of(timestamp@),
        forall|minutes: int|
            #![trigger moved_timestamp(moved@, minutes)]
            (shows_leap_second(timestamp@) ==> same_side(
                offset_minutes as int,
                offset_minutes + minutes,
            )) ==> moved_timestamp(moved@, minutes) == moved_timestamp(
                timestamp@,
                offset_minutes + minutes,
            ),
        is_plain_timestamp(timestamp@) ==> moved_timestamp(timestamp@, 0) == timestamp@,
        !shows_leap_second(timestamp@) ==> can_move(moved@, -offset_minutes),
        is_plain_timestamp(timestamp@) && !shows_leap_second(timestamp@) ==> moved_timestamp(
            moved@,
            -offset_minutes,
        ) == timestamp@,
{
    match read_timestamp(timestamp) {
        Some((seconds, nanos, format)) => match move_clock(seconds, nanos, offset_minutes) {
            Some((moved_to, moved_nanos)) => write_reading(moved_to, moved_nanos, format),
            None => timestamp.to_owned(),
        },
        None => timestamp.to_owned(),
    }
}

/// Moves a timestamp as [`format_time_offset`] does, where it can be moved.
pub fn checked_time_offset(timestamp: &str, offset_minutes: i32) -> (moved: Option<String>)
    ensures
        moved is Some <==> can_move(timestamp@, offset_minutes as int),
        moved matches Some(m) ==> m@ == moved_timestamp(timestamp@, offset_minutes as int),
{
    if let Some((seconds, nanos, _)) = read_timestamp(timestamp) {
        if move_clock(seconds, nanos, offset_minutes).is_none() {
            return None;
        }
    }
    Some(format_time_offset(timestamp, offset_minutes))
}

/// A move by some minutes changes a reading by sixty seconds for each, and nothing else. A leap
/// second that is moved at all becomes the second before it going forward, and the second after it
/// going back.
pub proof fn lemma_moved_reading(seconds: int, nanos: int, minutes: int)
    ensures
        nanos < 1_000_000_000 ==> moved_seconds(seconds, nanos, minutes) - seconds == 60 * minutes
            && moved_nanos(nanos, minutes) == nanos,
        nanos >= 1_000_000_000 && minutes > 0 ==> moved_seconds(seconds, nanos, minutes) - seconds
            == 60 * minutes && moved_nanos(nanos, minutes) == nanos - 1_000_000_000,
        nanos >= 1_000_000_000 && minutes < 0 ==> moved_seconds(seconds, nanos, minutes) - (seconds
            + 1) == 60 * minutes && moved_nanos(nanos, minutes) == nanos - 1_000_000_000,
        minutes == 0 ==> moved_seconds(seconds, nanos, minutes) == seconds && moved_nanos(
            nanos,
            minutes,
        ) == nanos,
{
}

/// How a timestamp is read: as RFC 3339 where that can be done, else with a space before the time
/// of day, else with a `T` there, else not at all; without the fraction of its second.
pub proof fn lemma_reading_order(timestamp: Seq<char>)
    ensures
        ({
            let stamped = rfc3339_reading(timestamp);
            let spaced = naive_reading(timestamp, "%Y-%m-%d %H:%M:%S"@);
            let joined = naive_reading(timestamp, "%Y-%m-%dT%H:%M:%S"@);
            let whole = |r: (i64, u32)|
                (
                    r.0,
                    if r.1 < 1_000_000_000 {
                        0u32
                    } else {
                        1_000_000_000u32
                    },
                );
            &&& stamped matches Some(r) ==> reading_of(timestamp) == Some(whole(r)) && format_of(
                timestamp,
            ) == "%Y-%m-%d %H:%M:%S"@
            &&& stamped is None ==> (spaced matches Some(r) ==> reading_of(timestamp) == Some(
                whole(r),
            ) && format_of(timestamp) == "%Y-%m-%d %H:%M:%S"@)
            &&& stamped is None && spaced is None ==> (joined matches Some(r) ==> reading_of(
                timestamp,
            ) == Some(whole(r)) && format_of(timestamp) == "%Y-%m-%dT%H:%M:%S"@)
            &&& stamped is None && spaced is None && joined is None ==> reading_of(
                timestamp,
            ) is None
        }),
{
}

/// What a move gives: a timestamp that cannot be read can always be moved, and stays as it is; one
/// that shows no leap second can be moved within the seconds that can be shown, and is then the
/// text of the second that is sixty seconds away for each minute.
pub proof fn lemma_moved_timestamp(timestamp: Seq<char>, minutes: int)
    ensures
        reading_of(timestamp) is None ==> can_move(timestamp, minutes) && moved_timestamp(
            timestamp,
            minutes,
        ) == timestamp,
        reading_of(timestamp) matches Some(r) ==> (r.1 < 1_000_000_000 ==> {
            &&& can_move(timestamp, minutes) <==> -8_334_601_228_800 <= r.0 + 60 * minutes
                <= 8_210_266_876_799
            &&& moved_timestamp(timestamp, minutes) == clock_text(
                (r.0 + 60 * minutes) as i64,
                r.1,
                format_of(timestamp),
            )
        }),
{
}

}
