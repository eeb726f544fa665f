//! Time stamps of bookmark files.
//!
//! Chromium counts microseconds from the year 1601, Firefox from 1970, and some stores count
//! seconds from 1970. The three are told apart by their size.
use crate::number;
use crate::number::{parse_i64, signed_text};
use crate::text;
use chrono::{DateTime, Local, Utc};
use vstd::prelude::*;

verus! {

/// The microseconds between the years 1601 and 1970.
pub const EPOCH_OFFSET_MICROS: i64 = 11_644_473_600_000_000;

/// A stamp above this one, and not above the offset, counts microseconds from 1970.
pub const MICROS_FLOOR: i64 = 1_000_000_000_000_000;

/// The date and time of day, as listed.
pub const STAMP_PATTERN: &'static str = "%Y-%m-%d %H:%M:%S";

/// The date and time of day, as part of a file name.
pub const FILE_PATTERN: &'static str = "%Y%m%d_%H%M%S";

// ---------------------------------------------------------------------------
// Clock and calendar
// ---------------------------------------------------------------------------

/// The seconds and nanoseconds from 1970 that name a moment of the calendar: a year from
/// -262143 to 262142, and a fraction below a second or, in the last second of a minute, below
/// two.
pub open spec fn in_calendar(secs: int, nanos: int) -> bool {
    &&& -8_334_601_228_800 <= secs <= 8_210_266_876_799
    &&& 0 <= nanos < 2_000_000_000
    &&& nanos >= 1_000_000_000 ==> secs % 60 == 59
}

/// What `DateTime::format` writes for the moment that many seconds and nanoseconds from 1970, in a
/// time zone that many seconds east of UTC.
pub uninterp spec fn zoned_text(
    secs: i64,
    nanos: u32,
    offset: i32,
    pattern: Seq<char>,
) -> Seq<char>;

/// `DateTime::from_timestamp`, then the moment in the local time zone (`DateTime<Local>::from`),
/// then `format`. There is a text if and only if the calendar holds the moment, and it is the
/// text of the moment at some offset below a day. Which offset it is depends on the time zone of
/// the machine and is left unsaid.
#[verifier::external_body]
fn local_text(secs: i64, nanos: u32, pattern: &str) -> (r: Option<String>)
    requires
        pattern@ == STAMP_PATTERN@ || pattern@ == FILE_PATTERN@,
    ensures
        match r {
            Some(t) => {
                &&& in_calendar(secs as int, nanos as int)
                &&& exists|offset: i32|
                    -86_400 < offset < 86_400 && t@ == #[trigger] zoned_text(
                        secs,
                        nanos,
                        offset,
                        pattern@,
                    )
            },
            None => !in_calendar(secs as int, nanos as int),
        },
{
    match DateTime::from_timestamp(secs, nanos) {
        Some(utc) => Some(DateTime::<Local>::from(utc).format(pattern).to_string()),
        None => None,
    }
}

/// The text is that of some moment of the calendar in some time zone.
pub open spec fn is_clock_text(t: Seq<char>, pattern: Seq<char>) -> bool {
    exists|secs: i64, nanos: u32, offset: i32|
        in_calendar(secs as int, nanos as int) && -86_400 < offset < 86_400 && t
            == #[trigger] zoned_text(secs, nanos, offset, pattern)
}

/// `Local::now`, then `format`: the text of some moment of the calendar at some offset below a day.
/// Which moment and which offset depend on the clock and on the time zone of the machine and are
/// left unsaid.
#[verifier::external_body]
pub(crate) fn local_now(pattern: &str) -> (r: String)
    requires
        pattern@ == STAMP_PATTERN@ || pattern@ == FILE_PATTERN@,
    ensures
        is_clock_text(r@, pattern@),
{
    Local::now().format(pattern).to_string()
}

/// `Utc::now`, then `timestamp_micros`: the clock in microseconds from 1970. It is not before
/// 1970 and not after the last moment of the calendar.
#[verifier::external_body]
pub(crate) fn utc_now_micros() -> (r: i64)
    ensures
        0 <= r < 8_210_266_876_800_000_000,
{
    Utc::now().timestamp_micros()
}

/// `Utc::now`, then `timestamp`: the clock in seconds from 1970. It is not before 1970 and not
/// after the last moment of the calendar.
#[verifier::external_body]
pub(crate) fn utc_now_secs() -> (r: i64)
    ensures
        0 <= r < 8_210_266_876_800,
{
    Utc::now().timestamp()
}

// ---------------------------------------------------------------------------
// Stamps
// ---------------------------------------------------------------------------

/// When a bookmark was added or changed, as far as its stamp tells.
#[derive(Debug, Clone, Copy, PartialEq, Eq, Structural)]
pub enum Moment {
    /// Seconds and nanoseconds from 1970.
    At { secs: i64, nanos: u32 },
    /// No moment of the calendar: the clock stands in.
    Now,
}

/// The microseconds from 1970 of a stamp; seconds that do not fit wrap around.
pub open spec fn unix_micros(stamp: i64) -> i64 {
    if stamp > EPOCH_OFFSET_MICROS {
        (stamp - EPOCH_OFFSET_MICROS) as i64
    } else if stamp > MICROS_FLOOR {
        stamp
    } else {
        stamp.wrapping_mul(1_000_000)
    }
}

/// The whole seconds of a number of microseconds, cut toward zero.
pub open spec fn whole_secs(micros: int) -> int {
    if micros >= 0 {
        micros / 1_000_000
    } else {
        -((-micros) / 1_000_000)
    }
}

/// The nanoseconds beyond the whole seconds, as an unsigned 32-bit number: those of a negative
/// fraction wrap around.
pub open spec fn rest_nanos(micros: int) -> int {
    if micros >= 0 {
        (micros % 1_000_000) * 1000
    } else {
        let rest = (-micros) % 1_000_000;
        if rest == 0 {
            0
        } else {
            0x1_0000_0000 - rest * 1000
        }
    }
}

/// The moment that a number of microseconds names.
pub open spec fn moment_of_micros(micros: i64) -> Moment {
    let secs = whole_secs(micros as int);
    let nanos = rest_nanos(micros as int);
    if in_calendar(secs, nanos) {
        Moment::At { secs: secs as i64, nanos: nanos as u32 }
    } else {
        Moment::Now
    }
}

/// The moment that the text of a stamp names.
pub open spec fn moment_of(stamp: Option<Seq<char>>) -> Moment {
    match stamp {
        Some(s) => match number::parse_signed(s) {
            Some(n) => moment_of_micros(unix_micros(n as i64)),
            None => Moment::Now,
        },
        None => Moment::Now,
    }
}

/// The seconds from 1970 of the text of a stamp, where it is a positive number.
pub open spec fn unix_secs_of(stamp: Option<Seq<char>>) -> Option<int> {
    match stamp {
        Some(s) => match number::parse_signed(s) {
            Some(n) => if n > EPOCH_OFFSET_MICROS {
                Some((n - EPOCH_OFFSET_MICROS) / 1_000_000)
            } else if n > MICROS_FLOOR {
                Some(n / 1_000_000)
            } else if n > 0 {
                Some(n)
            } else {
                None
            },
            None => None,
        },
        None => None,
    }
}

/// The moment that a number of microseconds names.
fn micros_moment(micros: i64) -> (r: Moment)
    ensures
        r == moment_of_micros(micros),
{
    let secs: i64;
    let nanos: u32;
    if micros >= 0 {
        secs = micros / 1_000_000;
        nanos = ((micros % 1_000_000) * 1000) as u32;
    } else {
        let size: i128 = -(micros as i128);
        let rest: i128 = size % 1_000_000;
        secs = (-(size / 1_000_000)) as i64;
        nanos = if rest == 0 {
            0
        } else {
            (0x1_0000_0000i128 - rest * 1000) as u32
        };
    }
    let in_range: bool = -8_334_601_228_800 <= secs && secs <= 8_210_266_876_799 && nanos
        < 2_000_000_000;
    if in_range {
        assert(nanos < 1_000_000_000);
        Moment::At { secs, nanos }
    } else {
        Moment::Now
    }
}

/// The moment that the text of a stamp names.
pub fn stamp_moment(val_str: Option<&str>) -> (r: Moment)
    ensures
        r == moment_of(text::maybe(val_str)),
{
    match val_str {
        Some(s) => match parse_i64(s) {
            Some(stamp) => {
                let micros: i64 = if stamp > EPOCH_OFFSET_MICROS {
                    stamp - EPOCH_OFFSET_MICROS
                } else if stamp > MICROS_FLOOR {
                    stamp
                } else {
                    stamp.wrapping_mul(1_000_000)
                };
                micros_moment(micros)
            },
            None => Moment::Now,
        },
        None => Moment::Now,
    }
}

/// The text is that of a moment in some time zone; where the moment is not in the calendar, it is
/// that of some other moment.
pub open spec fn shows_moment(t: Seq<char>, moment: Moment) -> bool {
    match moment {
        Moment::At { secs, nanos } => if in_calendar(secs as int, nanos as int) {
            exists|offset: i32|
                -86_400 < offset < 86_400 && t == #[trigger] zoned_text(
                    secs,
                    nanos,
                    offset,
                    STAMP_PATTERN@,
                )
        } else {
            is_clock_text(t, STAMP_PATTERN@)
        },
        Moment::Now => is_clock_text(t, STAMP_PATTERN@),
    }
}

/// The text of a moment in the local time zone, or that of the clock.
pub fn moment_text(moment: Moment) -> (r: String)
    ensures
        shows_moment(r@, moment),
{
    match moment {
        Moment::At { secs, nanos } => match local_text(secs, nanos, STAMP_PATTERN) {
            Some(s) => s,
            None => local_now(STAMP_PATTERN),
        },
        Moment::Now => local_now(STAMP_PATTERN),
    }
}

/// The text of a stamp in the local time zone; the time of the clock where the stamp names no
/// moment.
pub fn chromium_time_to_string(val_str: Option<&str>) -> (r: String)
    ensures
        shows_moment(r@, moment_of(text::maybe(val_str))),
{
    moment_text(stamp_moment(val_str))
}

/// The seconds from 1970 of a stamp.
pub fn chromium_time_to_unix_secs(val_str: Option<&str>) -> (r: Option<i64>)
    ensures
        ({
            let stamp = text::maybe(val_str);
            match r {
                Some(n) => unix_secs_of(stamp) == Some(n as int),
                None => unix_secs_of(stamp) is None,
            }
        }),
{
    match val_str {
        Some(s) => match parse_i64(s) {
            Some(stamp) => if stamp > EPOCH_OFFSET_MICROS {
                Some((stamp - EPOCH_OFFSET_MICROS) / 1_000_000)
            } else if stamp > MICROS_FLOOR {
                Some(stamp / 1_000_000)
            } else if stamp > 0 {
                Some(stamp)
            } else {
                None
            },
            None => None,
        },
        None => None,
    }
}

/// The stamp of a moment given in microseconds from 1970.
pub open spec fn chromium_stamp(unix_micros: int) -> Seq<char> {
    number::signed_decimal(unix_micros + EPOCH_OFFSET_MICROS)
}

/// The stamp of a clock reading in microseconds from 1970.
pub fn chromium_time_of(unix_micros: i64) -> (r: String)
    requires
        unix_micros + EPOCH_OFFSET_MICROS <= i64::MAX,
    ensures
        r@ == chromium_stamp(unix_micros as int),
{
    signed_text(unix_micros + EPOCH_OFFSET_MICROS)
}

/// The stamp of the present.
pub fn now_chromium_time() -> (r: String)
    ensures
        exists|micros: int|
            0 <= micros < 8_210_266_876_800_000_000 && r@ == #[trigger] chromium_stamp(micros),
{
    chromium_time_of(utc_now_micros())
}

// ---------------------------------------------------------------------------
// Laws
// ---------------------------------------------------------------------------

/// A stamp of any moment after 1970 names that moment, to the microsecond.
pub proof fn law_stamp_read_back(micros: i64)
    requires
        0 < micros < 8_210_266_876_800_000_000,
    ensures
        moment_of(Some(chromium_stamp(micros as int))) == (Moment::At {
            secs: (micros / 1_000_000) as i64,
            nanos: ((micros % 1_000_000) * 1000) as u32,
        }),
        unix_secs_of(Some(chromium_stamp(micros as int))) == Some((micros / 1_000_000) as int),
{
    number::law_signed_read_back((micros + EPOCH_OFFSET_MICROS) as i64);
}

/// A stamp of Firefox, in microseconds from 1970, names its moment to the microsecond.
pub proof fn law_firefox_stamp_read_back(micros: i64)
    requires
        1_000_000_000_000_000 < micros <= 11_644_473_600_000_000,
    ensures
        moment_of(Some(number::signed_decimal(micros as int))) == (Moment::At {
            secs: (micros / 1_000_000) as i64,
            nanos: ((micros % 1_000_000) * 1000) as u32,
        }),
        unix_secs_of(Some(number::signed_decimal(micros as int))) == Some(
            (micros / 1_000_000) as int,
        ),
{
    number::law_signed_read_back(micros);
}

/// A stamp in seconds from 1970 names its moment.
pub proof fn law_seconds_read_back(secs: i64)
    requires
        0 < secs <= 8_210_266_876_799,
    ensures
        moment_of(Some(number::signed_decimal(secs as int))) == (Moment::At { secs, nanos: 0 }),
        unix_secs_of(Some(number::signed_decimal(secs as int))) == Some(secs as int),
{
    number::law_signed_read_back(secs);
    assert(secs * 1_000_000 <= i64::MAX);
    let m = secs.wrapping_mul(1_000_000);
    assert(m == secs * 1_000_000);
    assert((secs * 1_000_000) / 1_000_000 == secs && (secs * 1_000_000) % 1_000_000 == 0);
}

/// What is no number names no moment and no seconds, nor does a missing stamp; a number that is
/// not positive has no seconds.
pub proof fn law_no_stamp_no_moment(s: Seq<char>, n: i64)
    ensures
        moment_of(None) == Moment::Now,
        unix_secs_of(None) is None,
        number::parse_signed(s) is None ==> moment_of(Some(s)) == Moment::Now && unix_secs_of(
            Some(s),
        ) is None,
        n <= 0 ==> unix_secs_of(Some(number::signed_decimal(n as int))) is None,
{
    number::law_signed_read_back(n);
}

} // verus!
