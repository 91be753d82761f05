//! Recognition of the timestamp at the start of a log line.
//!
//! Three prefixes are recognized, in this order: `YYYY-MM-DDTHH:MM:SS`,
//! `YYYY-MM-DD HH:MM:SS` followed by a UTC offset of a sign and two digits,
//! and the syslog form `Mon DD HH:MM:SS`, which names no year and is read in
//! a year given by the caller. The first form that fits the line decides.

use crate::text::{
    byte_len, byte_prefix, byte_prefix_of, char_at, digit_char, digit_str, signed_decimal,
    signed_decimal_string,
};
use crate::timestamp::{Timestamp, ZonedTimestamp};
use chrono::{DateTime, Datelike, TimeZone, Utc};
use regex::Regex;
use vstd::prelude::*;
use vstd::string::*;
use vstd::utf8::*;

verus! {

/// What chrono's `TimeZone::datetime_from_str`, called on `Utc`, reads from
/// `text` under the format `format`: the seconds since the epoch and the
/// nanoseconds of the instant, or `None` where chrono reports an error.
pub uninterp spec fn utc_datetime_from_str(text: Seq<char>, format: Seq<char>) -> Option<
    (i64, u32),
>;

/// What chrono's `DateTime::parse_from_str` reads from `text` under the
/// format `format`: the seconds since the epoch, the nanoseconds and the
/// offset from UTC in seconds east, or `None` where chrono reports an error.
pub uninterp spec fn fixed_datetime_from_str(text: Seq<char>, format: Seq<char>) -> Option<
    (i64, u32, i32),
>;

/// Whether the regular expression `pattern` matches somewhere in `text`, as
/// the regex crate's `Regex::is_match` finds after `Regex::new` has compiled
/// the pattern; `None` where `Regex::new` rejects the pattern.
pub uninterp spec fn regex_is_match(pattern: Seq<char>, text: Seq<char>) -> Option<bool>;

/// Calls chrono's `TimeZone::datetime_from_str` on `Utc` and hands out the
/// instant it returns as seconds and nanoseconds (`DateTime::timestamp`,
/// `DateTime::timestamp_subsec_nanos`). The call reads nothing but its two
/// arguments, so its result is a function of them. It is made with the two
/// formats of this module only, under which chrono returns an error for
/// every text that it cannot read.
#[verifier::external_body]
#[allow(deprecated)]
pub(crate) fn parse_utc(text: &str, format: &str) -> (r: Option<(i64, u32)>)
    requires
        format@ == "%Y-%m-%dT%H:%M:%S"@ || format@ == "%Y %b %d %H:%M:%S"@,
    ensures
        r == utc_datetime_from_str(text@, format@),
{
    match Utc.datetime_from_str(text, format) {
        Ok(t) => Some((t.timestamp(), t.timestamp_subsec_nanos())),
        Err(_) => None,
    }
}

/// Calls chrono's `DateTime::parse_from_str` and hands out the instant it
/// returns as seconds and nanoseconds, with the parsed offset in seconds east
/// (`FixedOffset::local_minus_utc`). The call reads nothing but its two
/// arguments, so its result is a function of them. It is made with the one
/// format of this module only, under which chrono returns an error for
/// every text that it cannot read.
#[verifier::external_body]
pub(crate) fn parse_fixed(text: &str, format: &str) -> (r: Option<(i64, u32, i32)>)
    requires
        format@ == "%Y-%m-%d %H:%M:%S%z"@,
    ensures
        r == fixed_datetime_from_str(text@, format@),
{
    match DateTime::parse_from_str(text, format) {
        Ok(t) => Some((t.timestamp(), t.timestamp_subsec_nanos(), t.offset().local_minus_utc())),
        Err(_) => None,
    }
}

/// Compiles `pattern` with the regex crate's `Regex::new` and calls
/// `Regex::is_match` on `text`. Both read nothing but their arguments, so the
/// result is a function of the two texts.
#[verifier::external_body]
pub(crate) fn regex_match(pattern: &str, text: &str) -> (r: Option<bool>)
    ensures
        r == regex_is_match(pattern@, text@),
{
    match Regex::new(pattern) {
        Ok(re) => Some(re.is_match(text)),
        Err(_) => None,
    }
}

/// Calls chrono's `Utc::now` and `Datelike::year`: the calendar year in UTC
/// at the moment of the call. Nothing is promised of it. chrono stops the
/// program where the system clock stands before 1970.
#[verifier::external_body]
pub(crate) fn current_year() -> i32 {
    Utc::now().year()
}

/// Whether `s` has `c` at index `i`, counted in characters.
pub open spec fn has_char(s: Seq<char>, i: int, c: char) -> bool {
    i < s.len() && s[i] == c
}

fn has_char_at(line: &str, i: usize, c: char) -> (r: bool)
    ensures
        r == has_char(line@, i as int, c),
{
    match char_at(line, i) {
        Some(found) => found == c,
        None => false,
    }
}

/// The separators of `YYYY-MM-DDTHH:MM:SS` stand at their places in `s`.
pub open spec fn is_8601_text(s: Seq<char>) -> bool {
    has_char(s, 4, '-') && has_char(s, 7, '-') && has_char(s, 10, 'T') && has_char(s, 13, ':')
        && has_char(s, 16, ':')
}

/// The separators of `YYYY-MM-DD HH:MM:SS` stand at their places in `s`.
pub open spec fn is_8601_spaced_text(s: Seq<char>) -> bool {
    has_char(s, 4, '-') && has_char(s, 7, '-') && has_char(s, 10, ' ') && has_char(s, 13, ':')
        && has_char(s, 16, ':')
}

/// As [`is_8601_spaced_text`], with the sign of a UTC offset behind the
/// seconds.
pub open spec fn is_8601_spaced_tz_text(s: Seq<char>) -> bool {
    is_8601_spaced_text(s) && (has_char(s, 19, '+') || has_char(s, 19, '-'))
}

/// The pattern that the start of a syslog line is held against.
pub open spec fn syslog_pattern() -> Seq<char> {
    "^[Jan|Feb|Mar|Apr|May|Jun|Jul|Aug|Sep|Oct|Nov|Dec]"@
}

/// `s` is at least 16 bytes long and the pattern matches its first 15 bytes.
pub open spec fn is_syslog_text(s: Seq<char>) -> bool {
    byte_len(s) >= 16 && match byte_prefix_of(s, 15) {
        Some(p) => regex_is_match(syslog_pattern(), p) == Some(true),
        None => false,
    }
}

pub fn is_8601(line: &str) -> (r: bool)
    ensures
        r == is_8601_text(line@),
{
    has_char_at(line, 4, '-') && has_char_at(line, 7, '-') && has_char_at(line, 10, 'T')
        && has_char_at(line, 13, ':') && has_char_at(line, 16, ':')
}

pub fn is_8601_spaced(line: &str) -> (r: bool)
    ensures
        r == is_8601_spaced_text(line@),
{
    has_char_at(line, 4, '-') && has_char_at(line, 7, '-') && has_char_at(line, 10, ' ')
        && has_char_at(line, 13, ':') && has_char_at(line, 16, ':')
}

pub fn is_8601_spaced_tz(line: &str) -> (r: bool)
    ensures
        r == is_8601_spaced_tz_text(line@),
{
    is_8601_spaced(line) && (has_char_at(line, 19, '+') || has_char_at(line, 19, '-'))
}

/// Whether `line` starts like a syslog line. A line whose fifteenth byte
/// lies inside a character does not.
pub fn is_syslog_date_format(line: &str) -> (r: bool)
    ensures
        r == is_syslog_text(line@),
{
    if line.as_bytes().len() < 16 {
        return false;
    }
    match byte_prefix(line, 15) {
        Some(input) => {
            match regex_match("^[Jan|Feb|Mar|Apr|May|Jun|Jul|Aug|Sep|Oct|Nov|Dec]", input) {
                Some(found) => found,
                None => false,
            }
        },
        None => false,
    }
}

/// The instant that a parse in UTC gave.
pub open spec fn instant_of(parsed: Option<(i64, u32)>) -> Option<Timestamp> {
    match parsed {
        Some((secs, nanos)) => Some(Timestamp { secs, nanos }),
        None => None,
    }
}

/// The instant and offset that a parse with an offset gave.
pub open spec fn zoned_of(parsed: Option<(i64, u32, i32)>) -> Option<ZonedTimestamp> {
    match parsed {
        Some((secs, nanos, offset)) => Some(
            ZonedTimestamp { instant: Timestamp { secs, nanos }, offset },
        ),
        None => None,
    }
}

/// The instant of an optional zoned timestamp.
pub open spec fn to_utc(zoned: Option<ZonedTimestamp>) -> Option<Timestamp> {
    match zoned {
        Some(z) => Some(z.instant),
        None => None,
    }
}

/// Turns the seconds and nanoseconds of a parse in UTC into an instant.
pub fn utc_instant(parsed: Option<(i64, u32)>) -> (r: Option<Timestamp>)
    ensures
        r == instant_of(parsed),
{
    match parsed {
        Some((secs, nanos)) => Some(Timestamp { secs, nanos }),
        None => None,
    }
}

/// Turns the seconds, nanoseconds and offset of a parse into a zoned
/// timestamp.
pub fn zoned_instant(parsed: Option<(i64, u32, i32)>) -> (r: Option<ZonedTimestamp>)
    ensures
        r == zoned_of(parsed),
{
    match parsed {
        Some((secs, nanos, offset)) => Some(
            ZonedTimestamp { instant: Timestamp { secs, nanos }, offset },
        ),
        None => None,
    }
}

/// `text` read as `YYYY-MM-DD HH:MM:SS` followed by a UTC offset.
pub open spec fn datetime_of(text: Seq<char>) -> Option<ZonedTimestamp> {
    zoned_of(fixed_datetime_from_str(text, "%Y-%m-%d %H:%M:%S%z"@))
}

/// Reads `YYYY-MM-DD HH:MM:SS` followed by a UTC offset of hours and minutes.
pub fn parse_datetime(datetime_str: &str) -> (r: Option<ZonedTimestamp>)
    ensures
        r == datetime_of(datetime_str@),
{
    zoned_instant(parse_fixed(datetime_str, "%Y-%m-%d %H:%M:%S%z"))
}

/// Whether the byte `b` is one of the digits `0` to `9`.
pub open spec fn is_digit_byte(b: u8) -> bool {
    48 <= b && b <= 57
}

/// The minutes of the UTC offset of a line that starts with a date, a time
/// and the sign and hours of an offset: the two digits behind a colon that
/// follows the hours, and `00` where no colon with two digits follows.
pub open spec fn offset_minutes(line: Seq<char>) -> Seq<char> {
    let bytes = encode_utf8(line);
    if bytes.len() >= 25 && bytes[22] == 58 && is_digit_byte(bytes[23]) && is_digit_byte(
        bytes[24],
    ) {
        seq![digit_char(bytes[23] - 48), digit_char(bytes[24] - 48)]
    } else {
        seq!['0', '0']
    }
}

/// The first 22 bytes of `line`, which reach through the hours of the
/// offset, completed by the minutes of the offset and read as a date, a
/// time and a UTC offset.
pub open spec fn spaced_tz_of(line: Seq<char>) -> Option<ZonedTimestamp> {
    match byte_prefix_of(line, 22) {
        Some(p) => datetime_of(p + offset_minutes(line)),
        None => None,
    }
}

/// The two digits of the minutes of the offset in `line`, or `00` where the
/// hours of the offset are not followed by a colon and two digits.
pub fn read_offset_minutes(line: &str) -> (r: String)
    ensures
        r@ == offset_minutes(line@),
{
    let bytes = line.as_bytes();
    if bytes.len() >= 25 && bytes[22] == 58 && 48 <= bytes[23] && bytes[23] <= 57 && 48
        <= bytes[24] && bytes[24] <= 57 {
        let tens: u64 = (bytes[23] - 48) as u64;
        let ones: u64 = (bytes[24] - 48) as u64;
        let mut minutes = String::from_str(digit_str(tens));
        minutes.append(digit_str(ones));
        assert(minutes@ =~= offset_minutes(line@));
        minutes
    } else {
        proof {
            reveal_strlit("00");
            assert("00"@ =~= seq!['0', '0']);
        }
        String::from_str("00")
    }
}

/// Reads a line that starts with `YYYY-MM-DD HH:MM:SS` and a UTC offset of a
/// sign and two digits of hours, with or without a colon and two digits of
/// minutes behind them. A line shorter than 22 bytes, or whose 22nd byte
/// lies inside a character, holds no such timestamp.
pub fn parse_8601_spaced_tz(line: &str) -> (r: Option<ZonedTimestamp>)
    ensures
        r == spaced_tz_of(line@),
{
    match byte_prefix(line, 22) {
        Some(date_string) => {
            let minutes = read_offset_minutes(line);
            let mut full_date_string = String::from_str(date_string);
            full_date_string.append(minutes.as_str());
            parse_datetime(full_date_string.as_str())
        },
        None => None,
    }
}

/// The first 19 bytes of `line` read as `YYYY-MM-DDTHH:MM:SS` in UTC.
pub open spec fn iso_of(line: Seq<char>) -> Option<Timestamp> {
    match byte_prefix_of(line, 19) {
        Some(p) => instant_of(utc_datetime_from_str(p, "%Y-%m-%dT%H:%M:%S"@)),
        None => None,
    }
}

/// The first 15 bytes of `line` read as `Mon DD HH:MM:SS` in UTC, in the
/// year `year`.
pub open spec fn syslog_of(line: Seq<char>, year: int) -> Option<Timestamp> {
    match byte_prefix_of(line, 15) {
        Some(p) => instant_of(
            utc_datetime_from_str(signed_decimal(year) + seq![' '] + p, "%Y %b %d %H:%M:%S"@),
        ),
        None => None,
    }
}

/// The timestamp at the start of `line`, where a syslog line is read in the
/// year `year`: the first of the three forms whose marks the line shows
/// decides, also where the line then fails to parse under it.
pub open spec fn recognized(line: Seq<char>, year: int) -> Option<Timestamp> {
    if is_8601_text(line) {
        iso_of(line)
    } else if is_8601_spaced_tz_text(line) {
        to_utc(spaced_tz_of(line))
    } else if is_syslog_text(line) {
        syslog_of(line, year)
    } else {
        None
    }
}

/// Only the syslog form depends on the year.
pub proof fn lemma_year_only_for_syslog(line: Seq<char>, y1: int, y2: int)
    requires
        is_8601_text(line) || is_8601_spaced_tz_text(line) || !is_syslog_text(line),
    ensures
        recognized(line, y1) == recognized(line, y2),
{
}

/// A line that holds a timestamp is not empty: it is at least sixteen bytes
/// long.
pub proof fn lemma_recognized_len(line: Seq<char>, year: int)
    requires
        recognized(line, year) is Some,
    ensures
        line.len() >= 1,
        byte_len(line) >= 16,
{
    crate::text::lemma_byte_len_bounds(line);
}

/// What the two forms that name their year give for `line`: the timestamp
/// that the first of them whose marks the line shows reads from it, or
/// `None` where the line shows the marks of neither.
pub open spec fn dated(line: Seq<char>) -> Option<Option<Timestamp>> {
    if is_8601_text(line) {
        Some(iso_of(line))
    } else if is_8601_spaced_tz_text(line) {
        Some(to_utc(spaced_tz_of(line)))
    } else {
        None
    }
}

/// Reads the timestamp of a line in one of the two forms that name their
/// year; `None` where the line shows the marks of neither.
pub fn date_with_year(line: &str) -> (r: Option<Option<Timestamp>>)
    ensures
        r == dated(line@),
{
    if is_8601(line) {
        return Some(
            match byte_prefix(line, 19) {
                Some(date_string) => utc_instant(parse_utc(date_string, "%Y-%m-%dT%H:%M:%S")),
                None => None,
            },
        );
    }
    if is_8601_spaced_tz(line) {
        return Some(
            match parse_8601_spaced_tz(line) {
                Some(date) => Some(date.instant),
                None => None,
            },
        );
    }
    None
}

/// Reads the first 15 bytes of a syslog line in the year `year`.
pub fn syslog_date(line: &str, year: i32) -> (r: Option<Timestamp>)
    ensures
        r == syslog_of(line@, year as int),
{
    match byte_prefix(line, 15) {
        Some(date_string) => {
            let mut date_string_with_year = signed_decimal_string(year);
            date_string_with_year.append(" ");
            date_string_with_year.append(date_string);
            proof {
                reveal_strlit(" ");
                assert(date_string_with_year@ =~= signed_decimal(year as int) + seq![' ']
                    + date_string@);
            }
            utc_instant(parse_utc(date_string_with_year.as_str(), "%Y %b %d %H:%M:%S"))
        },
        None => None,
    }
}

/// The timestamp at the start of `line`; a syslog line is read in the year
/// `year`.
pub fn date_from_line_in_year(line: &str, year: i32) -> (r: Option<Timestamp>)
    ensures
        r == recognized(line@, year as int),
{
    match date_with_year(line) {
        Some(date) => date,
        None => if is_syslog_date_format(line) {
            syslog_date(line, year)
        } else {
            None
        },
    }
}

/// The timestamp at the start of `line`; a syslog line is read in the
/// current year, and the clock is read for a syslog line only.
pub fn date_from_line(line: &str) -> (r: Option<Timestamp>)
    ensures
        exists|year: int| r == #[trigger] recognized(line@, year),
        dated(line@) is Some || !is_syslog_text(line@) ==> r == recognized(line@, 0),
{
    let r = match date_with_year(line) {
        Some(date) => date,
        None => if is_syslog_date_format(line) {
            let year = current_year();
            let date = syslog_date(line, year);
            assert(date == recognized(line@, year as int));
            date
        } else {
            None
        },
    };
    proof {
        if dated(line@) is Some || !is_syslog_text(line@) {
            assert(r == recognized(line@, 0));
        }
    }
    r
}

/// The second of the day of `t`: the seconds since the last midnight in UTC.
pub open spec fn second_of_day(t: Timestamp) -> int {
    (t.secs as int) % 86400
}

/// The second of the day `total` rounded to a multiple of `seconds`: down to
/// the multiple at or below it, and from there on by `seconds` where the rest
/// is more than half of `seconds`. The rest is taken against the magnitude of
/// `seconds`, the half rounded towards zero.
pub open spec fn rounded_second_of_day(total: int, seconds: int) -> int {
    let step = if seconds < 0 {
        -seconds
    } else {
        seconds
    };
    let remainder = total % step;
    let half = if seconds < 0 {
        -(step / 2)
    } else {
        step / 2
    };
    if remainder > half {
        total - remainder + seconds
    } else {
        total - remainder
    }
}

/// The seconds since the epoch of the instant that `time` is rounded to.
pub open spec fn rounded_secs(time: Timestamp, seconds: int) -> int {
    time.secs - second_of_day(time) + rounded_second_of_day(second_of_day(time), seconds)
}

/// Rounds `time` within its day in UTC to a multiple of `seconds` counted
/// from midnight, to the nearer one, and down where both are equally near.
/// The nanoseconds are dropped.
pub fn round_to_nearest_seconds(time: Timestamp, seconds: i64) -> (r: Timestamp)
    requires
        seconds != 0,
        i64::MIN <= rounded_secs(time, seconds as int) <= i64::MAX,
    ensures
        r.secs == rounded_secs(time, seconds as int),
        r.nanos == 0,
{
    let secs: i128 = time.secs as i128;
    let wide: i128 = seconds as i128;
    let total_seconds: i128 = if secs >= 0 {
        secs % 86400
    } else {
        86399 - ((-secs - 1) % 86400)
    };
    assert(total_seconds == second_of_day(time));
    let step: i128 = if wide < 0 {
        -wide
    } else {
        wide
    };
    let remainder: i128 = total_seconds % step;
    let half: i128 = if wide < 0 {
        -(step / 2)
    } else {
        step / 2
    };
    let round_down_seconds: i128 = total_seconds - remainder;
    let round_up_seconds: i128 = if remainder > half {
        round_down_seconds + wide
    } else {
        round_down_seconds
    };
    let rounded: i128 = secs - total_seconds + round_up_seconds;
    Timestamp { secs: rounded as i64, nanos: 0 }
}

} // verus!
